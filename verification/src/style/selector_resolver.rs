//! Resolution of compiled selectors while the state graph is traversed.
//!
//! The resolver keeps a stack of frames, one per edge on the path from the
//! root to the current node; each frame holds the selector states that await
//! an edge at that point.

use super::cascade::{CascadeSelector, FlatSelector, FlatSelectorSegment};
use super::selector::spec_matches;
use super::expression::Expression;
use crate::model::state::{EdgeLabel, NodeId, SpecEdgeLabel};
use vstd::prelude::*;

verus! {

/// Indicates what kind of entity a selector has last passed.
#[derive(Clone, Copy, PartialEq, Eq, Debug, Hash, Structural)]
pub enum SelectionCaret {
    /// The selector has passed a node, and has either selected it, or is awaiting an edge.
    Node,
    /// The selector has passed an edge, and is awaiting a node.
    PrecedingEdge,
}

/// Identifier of an instruction in a selector: a state of its state machine.
#[derive(Clone, Copy, PartialEq, Eq, PartialOrd, Ord, Debug, Hash, Structural)]
pub struct SelectorState {
    /// Index of the selector.
    pub rule_index: usize,
    /// Index of the instruction within the selector.
    pub instruction_index: usize,
}

impl SelectorState {
    /// The state of the following instruction.
    pub fn advance(self) -> (r: SelectorState)
        requires
            self.instruction_index < usize::MAX,
        ensures
            r.rule_index == self.rule_index,
            r.instruction_index == self.instruction_index + 1,
    {
        self.jump(self.instruction_index + 1)
    }

    /// The state of another instruction of the same selector.
    pub fn jump(self, next_instruction: usize) -> (r: SelectorState)
        ensures
            r.rule_index == self.rule_index,
            r.instruction_index == next_instruction,
    {
        SelectorState { rule_index: self.rule_index, instruction_index: next_instruction }
    }
}

/// Context frame of a [`SelectorResolver`].
struct ResolveFrame {
    /// The states where selectors currently are.
    active_states: Vec<SelectorState>,
}

/// Helper object for the resolution of stylesheets.
pub struct SelectorResolver<'a, T: NodeId> {
    selectors: &'a CascadeSelector,
    matched_sequence_points: Vec<(T, SelectorState)>,
    stack: Vec<ResolveFrame>,
}

/// Number of instructions not yet visited.
pub open spec fn count_unvisited(rows: Seq<Seq<bool>>) -> nat
    decreases rows.len(),
{
    if rows.len() == 0 {
        0
    } else {
        count_unvisited(rows.drop_last()) + count_false(rows.last())
    }
}

/// Number of `false` entries.
pub open spec fn count_false(row: Seq<bool>) -> nat
    decreases row.len(),
{
    if row.len() == 0 {
        0
    } else {
        count_false(row.drop_last()) + if row.last() {
            0nat
        } else {
            1nat
        }
    }
}

proof fn lemma_count_false_update(row: Seq<bool>, i: int)
    requires
        0 <= i < row.len(),
        !row[i],
    ensures
        count_false(row.update(i, true)) + 1 == count_false(row),
    decreases row.len(),
{
    let u = row.update(i, true);
    if i < row.len() - 1 {
        assert(u.drop_last() =~= row.drop_last().update(i, true));
        lemma_count_false_update(row.drop_last(), i);
    } else {
        assert(u.drop_last() =~= row.drop_last());
    }
}

proof fn lemma_count_unvisited_update(rows: Seq<Seq<bool>>, r: int, i: int)
    requires
        0 <= r < rows.len(),
        0 <= i < rows[r].len(),
        !rows[r][i],
    ensures
        count_unvisited(rows.update(r, rows[r].update(i, true))) + 1 == count_unvisited(rows),
    decreases rows.len(),
{
    let u = rows.update(r, rows[r].update(i, true));
    if r < rows.len() - 1 {
        assert(u.drop_last() =~= rows.drop_last().update(r, rows[r].update(i, true)));
        lemma_count_unvisited_update(rows.drop_last(), r, i);
    } else {
        assert(u.drop_last() =~= rows.drop_last());
        lemma_count_false_update(rows[r], i);
    }
}

/// True if every state is that of one of `n` selectors.
pub open spec fn states_in_range(states: Seq<SelectorState>, n: int) -> bool {
    forall|k: int| 0 <= k < states.len() ==> (#[trigger] states[k]).rule_index < n
}

/// True if the state awaits an edge, and `label` is one that its matcher accepts.
pub open spec fn awaits_edge(sels: Seq<FlatSelector>, s: SelectorState, label: SpecEdgeLabel) -> bool {
    &&& s.rule_index < sels.len()
    &&& s.instruction_index < sels[s.rule_index as int].path@.len()
    &&& match sels[s.rule_index as int].path@[s.instruction_index as int] {
        FlatSelectorSegment::MatchEdge(m) => spec_matches(m, label),
        _ => false,
    }
}

/// The states that follow the given ones over an edge with `label`: those
/// that await such an edge, each at its next instruction, in their order.
pub open spec fn states_after_edge(
    sels: Seq<FlatSelector>,
    states: Seq<SelectorState>,
    label: SpecEdgeLabel,
) -> Seq<SelectorState>
    decreases states.len(),
{
    if states.len() == 0 {
        seq![]
    } else {
        let rest = states_after_edge(sels, states.drop_last(), label);
        let s = states.last();
        if awaits_edge(sels, s, label) {
            rest.push(SelectorState { rule_index: s.rule_index, instruction_index: (s.instruction_index + 1) as usize })
        } else {
            rest
        }
    }
}

proof fn lemma_states_after_edge_in_range(sels: Seq<FlatSelector>, states: Seq<SelectorState>, label: SpecEdgeLabel)
    ensures
        states_in_range(states_after_edge(sels, states, label), sels.len() as int),
    decreases states.len(),
{
    if states.len() > 0 {
        lemma_states_after_edge_in_range(sels, states.drop_last(), label);
        let rest = states_after_edge(sels, states.drop_last(), label);
        let r = states_after_edge(sels, states, label);
        assert forall|k: int| 0 <= k < r.len() implies (#[trigger] r[k]).rule_index < sels.len() by {
            if k < rest.len() {
                assert(r[k] == rest[k]);
            }
        }
    }
}

/// One transition of a selector's state machine that takes no edge, from
/// state `s` to state `t`: matching the node moves on, a restriction moves
/// on where its condition was found to hold, a branch goes either way and a
/// jump goes to its target.
pub open spec fn node_transition<V, F: Fn(&Expression) -> bool>(
    sels: Seq<FlatSelector>,
    condition_holds: F,
    matched: Seq<(V, SelectorState)>,
    node: V,
    s: SelectorState,
    t: SelectorState,
) -> bool {
    &&& s.rule_index < sels.len()
    &&& s.instruction_index < sels[s.rule_index as int].path@.len()
    &&& t.rule_index == s.rule_index
    &&& match sels[s.rule_index as int].path@[s.instruction_index as int] {
        FlatSelectorSegment::MatchNode => t.instruction_index == s.instruction_index + 1 && !matched.contains(
            (node, s),
        ),
        FlatSelectorSegment::Restrict(c) => t.instruction_index == s.instruction_index + 1 && call_ensures(
            condition_holds,
            (&c,),
            true,
        ),
        FlatSelectorSegment::Branch(n) => t.instruction_index == n || t.instruction_index == s.instruction_index + 1,
        FlatSelectorSegment::Jump(n) => t.instruction_index == n,
        FlatSelectorSegment::MatchEdge(_) => false,
    }
}

/// True if each state of `run` follows the one before by a transition that takes no edge.
pub open spec fn is_node_run<V, F: Fn(&Expression) -> bool>(
    sels: Seq<FlatSelector>,
    condition_holds: F,
    matched: Seq<(V, SelectorState)>,
    node: V,
    run: Seq<SelectorState>,
) -> bool {
    &&& run.len() >= 1
    &&& forall|i: int| 0 <= i < run.len() - 1 ==> #[trigger] node_transition(sels, condition_holds, matched, node, run[i], run[i + 1])
}

/// True if a transition of `run` matches the node, committing the selector to it.
pub open spec fn run_commits(sels: Seq<FlatSelector>, run: Seq<SelectorState>) -> bool {
    exists|i: int|
        0 <= i < run.len() - 1 && sels[(#[trigger] run[i]).rule_index as int].path@[run[i].instruction_index as int]
            is MatchNode
}

/// True if the state `s` can be reached from one of `starts` by transitions
/// that take no edge, with `caret` telling whether they committed to the node.
pub open spec fn node_reaches<V, F: Fn(&Expression) -> bool>(
    sels: Seq<FlatSelector>,
    condition_holds: F,
    matched: Seq<(V, SelectorState)>,
    node: V,
    starts: Seq<SelectorState>,
    s: SelectorState,
    caret: SelectionCaret,
) -> bool {
    exists|run: Seq<SelectorState>|
        #[trigger] is_node_run(sels, condition_holds, matched, node, run) && starts.contains(run[0]) && run.last() == s
            && run_commits(sels, run) == (caret == SelectionCaret::Node)
}

/// True if the selector of a matched rule can reach its end from one of
/// `starts`, with the caret the match came with.
pub open spec fn node_reaches_end<V, F: Fn(&Expression) -> bool>(
    sels: Seq<FlatSelector>,
    condition_holds: F,
    matched: Seq<(V, SelectorState)>,
    node: V,
    starts: Seq<SelectorState>,
    entry: (usize, SelectionCaret),
) -> bool {
    exists|i: usize|
        i >= sels[entry.0 as int].path@.len() && #[trigger] node_reaches(
            sels,
            condition_holds,
            matched,
            node,
            starts,
            SelectorState { rule_index: entry.0, instruction_index: i },
            entry.1,
        )
}

/// A run that reaches a state can be extended by a transition from it.
proof fn lemma_node_reaches_step<V, F: Fn(&Expression) -> bool>(
    sels: Seq<FlatSelector>,
    condition_holds: F,
    matched: Seq<(V, SelectorState)>,
    node: V,
    starts: Seq<SelectorState>,
    s: SelectorState,
    caret: SelectionCaret,
    t: SelectorState,
)
    requires
        node_reaches(sels, condition_holds, matched, node, starts, s, caret),
        node_transition(sels, condition_holds, matched, node, s, t),
    ensures
        node_reaches(
            sels,
            condition_holds,
            matched,
            node,
            starts,
            t,
            if sels[s.rule_index as int].path@[s.instruction_index as int] is MatchNode {
                SelectionCaret::Node
            } else {
                caret
            },
        ),
{
    let run = choose|run: Seq<SelectorState>|
        #[trigger] is_node_run(sels, condition_holds, matched, node, run) && starts.contains(run[0]) && run.last() == s
            && run_commits(sels, run) == (caret == SelectionCaret::Node);
    let longer = run.push(t);
    assert(longer[0] == run[0]);
    assert forall|i: int| 0 <= i < longer.len() - 1 implies #[trigger] node_transition(
        sels,
        condition_holds,
        matched,
            node,
        longer[i],
        longer[i + 1],
    ) by {
        if i < run.len() - 1 {
            assert(longer[i] == run[i] && longer[i + 1] == run[i + 1]);
            assert(node_transition(sels, condition_holds, matched, node, run[i], run[i + 1]));
        } else {
            assert(longer[i] == s && longer[i + 1] == t);
        }
    }
    let is_match = sels[s.rule_index as int].path@[s.instruction_index as int] is MatchNode;
    if run_commits(sels, run) {
        let i = choose|i: int|
            0 <= i < run.len() - 1 && sels[(#[trigger] run[i]).rule_index as int].path@[run[i].instruction_index as int]
                is MatchNode;
        assert(longer[i] == run[i]);
    }
    if is_match {
        assert(longer[run.len() - 1] == s);
    }
    if run_commits(sels, longer) {
        let i = choose|i: int|
            0 <= i < longer.len() - 1 && sels[(#[trigger] longer[i]).rule_index as int].path@[longer[i].instruction_index as int]
                is MatchNode;
        if i < run.len() - 1 {
            assert(longer[i] == run[i]);
        } else {
            assert(longer[i] == s);
        }
    }
    assert(is_node_run(sels, condition_holds, matched, node, longer));
}

/// Every state of `starts` reaches itself without committing to the node.
proof fn lemma_node_reaches_start<V, F: Fn(&Expression) -> bool>(
    sels: Seq<FlatSelector>,
    condition_holds: F,
    matched: Seq<(V, SelectorState)>,
    node: V,
    starts: Seq<SelectorState>,
    k: int,
)
    requires
        0 <= k < starts.len(),
    ensures
        node_reaches(sels, condition_holds, matched, node, starts, starts[k], SelectionCaret::PrecedingEdge),
{
    let run = seq![starts[k]];
    assert(starts.contains(run[0]));
    assert(is_node_run(sels, condition_holds, matched, node, run));
}

/// One transition that resolving a node is bound to take from state `s` to
/// state `t`: matching the node moves on unless the node has matched there
/// before (`matched` holds the node and state pairs that have), a restriction
/// moves on where its condition holds whatever the evaluation gives, a branch
/// goes either way and a jump goes to its target.
pub open spec fn bound_transition<V, F: Fn(&Expression) -> bool>(
    sels: Seq<FlatSelector>,
    condition_holds: F,
    matched: Seq<(V, SelectorState)>,
    node: V,
    s: SelectorState,
    t: SelectorState,
) -> bool {
    &&& s.rule_index < sels.len()
    &&& s.instruction_index < sels[s.rule_index as int].path@.len()
    &&& t.rule_index == s.rule_index
    &&& match sels[s.rule_index as int].path@[s.instruction_index as int] {
        FlatSelectorSegment::MatchNode => t.instruction_index == s.instruction_index + 1 && !matched.contains(
            (node, s),
        ),
        FlatSelectorSegment::Restrict(c) => t.instruction_index == s.instruction_index + 1 && forall|b: bool|
            #[trigger] call_ensures(condition_holds, (&c,), b) ==> b,
        FlatSelectorSegment::Branch(n) => t.instruction_index == n || t.instruction_index == s.instruction_index + 1,
        FlatSelectorSegment::Jump(n) => t.instruction_index == n,
        FlatSelectorSegment::MatchEdge(_) => false,
    }
}

/// True if each state of `run` follows the one before by a bound transition.
pub open spec fn is_bound_run<V, F: Fn(&Expression) -> bool>(
    sels: Seq<FlatSelector>,
    condition_holds: F,
    matched: Seq<(V, SelectorState)>,
    node: V,
    run: Seq<SelectorState>,
) -> bool {
    &&& run.len() >= 1
    &&& forall|i: int|
        0 <= i < run.len() - 1 ==> #[trigger] bound_transition(sels, condition_holds, matched, node, run[i], run[i + 1])
}

/// True if resolving `node` is bound to reach the state `s` from one of `starts`.
pub open spec fn bound_reaches<V, F: Fn(&Expression) -> bool>(
    sels: Seq<FlatSelector>,
    condition_holds: F,
    matched: Seq<(V, SelectorState)>,
    node: V,
    starts: Seq<SelectorState>,
    s: SelectorState,
) -> bool {
    exists|run: Seq<SelectorState>|
        #[trigger] is_bound_run(sels, condition_holds, matched, node, run) && starts.contains(run[0]) && run.last()
            == s
}

/// Where an arrival at the end of a selector comes from: a state of `starts`
/// already at its end (kind 0, at that index of `starts`), or an instruction
/// of the selector, at the index given, that moves on past the end (kind 1)
/// or jumps past it (kind 2). Each source gives at most one arrival.
pub open spec fn end_source(
    sels: Seq<FlatSelector>,
    starts: Seq<SelectorState>,
    rule: usize,
    src: (int, usize),
) -> bool {
    let path = sels[rule as int].path@;
    if src.0 == 0 {
        &&& 0 <= src.1 < starts.len()
        &&& starts[src.1 as int].rule_index == rule
        &&& starts[src.1 as int].instruction_index >= path.len()
    } else if src.0 == 1 {
        &&& src.1 < path.len()
        &&& src.1 + 1 >= path.len()
        &&& !(path[src.1 as int] is MatchEdge)
        &&& !(path[src.1 as int] is Jump)
    } else {
        &&& src.0 == 2
        &&& src.1 < path.len()
        &&& match path[src.1 as int] {
            FlatSelectorSegment::Branch(n) => n >= path.len(),
            FlatSelectorSegment::Jump(n) => n >= path.len(),
            _ => false,
        }
    }
}

/// True if `srcs` gives each match of `r` a source of its arrival at the end
/// of its selector, and no two matches of one rule share a source: a rule is
/// returned at most as often as it has sources. An arrival that moved on from
/// a node-matching instruction has recorded that point of `node` in `points`.
pub open spec fn matches_have_sources<V>(
    sels: Seq<FlatSelector>,
    starts: Seq<SelectorState>,
    points: Seq<(V, SelectorState)>,
    node: V,
    r: Seq<(usize, SelectionCaret)>,
    srcs: Seq<(int, usize)>,
) -> bool {
    &&& srcs.len() == r.len()
    &&& forall|k: int| 0 <= k < r.len() ==> end_source(sels, starts, (#[trigger] r[k]).0, srcs[k])
    &&& forall|a: int, b: int|
        0 <= a < r.len() && 0 <= b < r.len() && a != b ==> (#[trigger] r[a].0, srcs[a]) != (#[trigger] r[b].0, srcs[b])
    &&& forall|k: int|
        0 <= k < r.len() && srcs[k].0 == 1 && sels[(#[trigger] r[k]).0 as int].path@[srcs[k].1 as int] is MatchNode
            ==> points.contains((node, SelectorState { rule_index: r[k].0, instruction_index: srcs[k].1 }))
}

/// How a state still to be visited came to be there: from `starts` (kind 0),
/// or pushed by the visited instruction at the index given, as its next
/// instruction (kind 1) or as its jump target (kind 2).
spec fn open_source(
    sels: Seq<FlatSelector>,
    starts: Seq<SelectorState>,
    vis: Seq<Seq<bool>>,
    state: SelectorState,
    src: (int, usize),
) -> bool {
    let v = SelectorState { rule_index: state.rule_index, instruction_index: src.1 };
    if src.0 == 0 {
        0 <= src.1 < starts.len() && starts[src.1 as int] == state
    } else if src.0 == 1 {
        &&& visited_in(vis, v)
        &&& state.instruction_index == src.1 + 1
        &&& !(sels[state.rule_index as int].path@[src.1 as int] is MatchEdge)
        &&& !(sels[state.rule_index as int].path@[src.1 as int] is Jump)
    } else {
        &&& src.0 == 2
        &&& visited_in(vis, v)
        &&& match sels[state.rule_index as int].path@[src.1 as int] {
            FlatSelectorSegment::Branch(n) => state.instruction_index == n,
            FlatSelectorSegment::Jump(n) => state.instruction_index == n,
            _ => false,
        }
    }
}

/// True if a source of kind 1 or 2 names a visited instruction of the rule.
spec fn source_visited(vis: Seq<Seq<bool>>, rule: usize, src: (int, usize)) -> bool {
    src.0 != 0 ==> visited_in(vis, SelectorState { rule_index: rule, instruction_index: src.1 })
}

/// True unless the source moved on from a node-matching instruction whose
/// point of `node` is not recorded in `points`.
spec fn kind1_recorded<V>(sels: Seq<FlatSelector>, points: Seq<(V, SelectorState)>, node: V, rule: usize, src: (int, usize)) -> bool {
    src.0 == 1 && sels[rule as int].path@[src.1 as int] is MatchNode ==> points.contains(
        (node, SelectorState { rule_index: rule, instruction_index: src.1 }),
    )
}

/// The bookkeeping of sources while resolving: each state still to be
/// visited and each match has its source, and no two of them of one rule
/// share a source.
#[verifier::opaque]
spec fn sources_ok<V>(
    sels: Seq<FlatSelector>,
    starts: Seq<SelectorState>,
    vis: Seq<Seq<bool>>,
    open: Seq<(SelectorState, SelectionCaret)>,
    osrc: Seq<(int, usize)>,
    matched: Seq<(usize, SelectionCaret)>,
    msrc: Seq<(int, usize)>,
    points: Seq<(V, SelectorState)>,
    node: V,
) -> bool {
    &&& osrc.len() == open.len()
    &&& msrc.len() == matched.len()
    &&& forall|x: int| 0 <= x < open.len() ==> kind1_recorded(sels, points, node, (#[trigger] open[x]).0.rule_index, osrc[x])
    &&& forall|x: int| 0 <= x < matched.len() ==> kind1_recorded(sels, points, node, (#[trigger] matched[x]).0, msrc[x])
    &&& forall|x: int| 0 <= x < open.len() ==> open_source(sels, starts, vis, (#[trigger] open[x]).0, osrc[x])
    &&& forall|x: int|
        0 <= x < matched.len() ==> end_source(sels, starts, (#[trigger] matched[x]).0, msrc[x]) && source_visited(
            vis,
            matched[x].0,
            msrc[x],
        )
    &&& forall|x: int, y: int|
        0 <= x < open.len() && 0 <= y < open.len() && x != y ==> (#[trigger] open[x].0.rule_index, osrc[x]) != (
        #[trigger] open[y].0.rule_index,
        osrc[y],
    )
    &&& forall|x: int, y: int|
        0 <= x < matched.len() && 0 <= y < matched.len() && x != y ==> (#[trigger] matched[x].0, msrc[x]) != (
        #[trigger] matched[y].0,
        msrc[y],
    )
    &&& forall|x: int, y: int|
        0 <= x < open.len() && 0 <= y < matched.len() ==> (#[trigger] open[x].0.rule_index, osrc[x]) != (
        #[trigger] matched[y].0,
        msrc[y],
    )
}

/// The states of `starts`, each from its own place, make good bookkeeping.
proof fn lemma_sources_start<V>(
    sels: Seq<FlatSelector>,
    starts: Seq<SelectorState>,
    vis: Seq<Seq<bool>>,
    open: Seq<(SelectorState, SelectionCaret)>,
    osrc: Seq<(int, usize)>,
    points: Seq<(V, SelectorState)>,
    node: V,
)
    requires
        open.len() == starts.len(),
        starts.len() <= usize::MAX,
        forall|x: int| 0 <= x < open.len() ==> (#[trigger] open[x]).0 == starts[x],
        osrc == Seq::new(open.len(), |x: int| (0int, x as usize)),
    ensures
        sources_ok(sels, starts, vis, open, osrc, Seq::empty(), Seq::empty(), points, node),
{
    reveal(sources_ok);
    assert forall|x: int| 0 <= x < open.len() implies open_source(sels, starts, vis, (#[trigger] open[x]).0, osrc[x]) by {
        assert(osrc[x] == (0int, x as usize));
    }
    assert forall|x: int, y: int|
        0 <= x < open.len() && 0 <= y < open.len() && x != y implies (#[trigger] open[x].0.rule_index, osrc[x]) != (
        #[trigger] open[y].0.rule_index,
        osrc[y],
    ) by {
        assert(osrc[x] == (0int, x as usize));
        assert(osrc[y] == (0int, y as usize));
    }
}

/// Taking the last state to visit leaves good bookkeeping, and its source is
/// shared by none of the rest.
proof fn lemma_sources_pop<V>(
    sels: Seq<FlatSelector>,
    starts: Seq<SelectorState>,
    vis: Seq<Seq<bool>>,
    open: Seq<(SelectorState, SelectionCaret)>,
    osrc: Seq<(int, usize)>,
    matched: Seq<(usize, SelectionCaret)>,
    msrc: Seq<(int, usize)>,
    points: Seq<(V, SelectorState)>,
    node: V,
)
    requires
        sources_ok(sels, starts, vis, open, osrc, matched, msrc, points, node),
        open.len() >= 1,
    ensures
        osrc.len() == open.len(),
        sources_ok(sels, starts, vis, open.drop_last(), osrc.drop_last(), matched, msrc, points, node),
        open_source(sels, starts, vis, open.last().0, osrc.last()),
        kind1_recorded(sels, points, node, open.last().0.rule_index, osrc.last()),
        forall|x: int|
            0 <= x < open.len() - 1 ==> (#[trigger] open[x].0.rule_index, osrc[x]) != (
                open.last().0.rule_index,
                osrc.last(),
            ),
        forall|y: int| 0 <= y < matched.len() ==> (#[trigger] matched[y].0, msrc[y]) != (open.last().0.rule_index, osrc.last()),
{
    reveal(sources_ok);
    let l = open.len() - 1;
    assert(open[l] == open.last());
    assert forall|x: int| 0 <= x < open.len() - 1 implies (#[trigger] open[x].0.rule_index, osrc[x]) != (
        open.last().0.rule_index,
        osrc.last(),
    ) by {
        assert(osrc[l] == osrc.last());
    }
    assert forall|y: int| 0 <= y < matched.len() implies (#[trigger] matched[y].0, msrc[y]) != (
        open.last().0.rule_index,
        osrc.last(),
    ) by {
        assert(osrc[l] == osrc.last());
    }
    let o2 = open.drop_last();
    let s2 = osrc.drop_last();
    assert forall|x: int| 0 <= x < o2.len() implies open_source(sels, starts, vis, (#[trigger] o2[x]).0, s2[x]) by {
        assert(o2[x] == open[x] && s2[x] == osrc[x]);
    }
    assert forall|x: int, y: int|
        0 <= x < o2.len() && 0 <= y < o2.len() && x != y implies (#[trigger] o2[x].0.rule_index, s2[x]) != (
        #[trigger] o2[y].0.rule_index,
        s2[y],
    ) by {
        assert(o2[x] == open[x] && s2[x] == osrc[x]);
        assert(o2[y] == open[y] && s2[y] == osrc[y]);
    }
    assert forall|x: int, y: int|
        0 <= x < o2.len() && 0 <= y < matched.len() implies (#[trigger] o2[x].0.rule_index, s2[x]) != (
        #[trigger] matched[y].0,
        msrc[y],
    ) by {
        assert(o2[x] == open[x] && s2[x] == osrc[x]);
    }
}

/// A state at the end of its selector, with its source, becomes a match.
proof fn lemma_sources_match<V>(
    sels: Seq<FlatSelector>,
    starts: Seq<SelectorState>,
    vis: Seq<Seq<bool>>,
    open: Seq<(SelectorState, SelectionCaret)>,
    osrc: Seq<(int, usize)>,
    matched: Seq<(usize, SelectionCaret)>,
    msrc: Seq<(int, usize)>,
    points: Seq<(V, SelectorState)>,
    node: V,
    state: SelectorState,
    caret: SelectionCaret,
    src: (int, usize),
)
    requires
        sources_ok(sels, starts, vis, open, osrc, matched, msrc, points, node),
        vis.len() == sels.len(),
        forall|r: int| 0 <= r < vis.len() ==> (#[trigger] vis[r]).len() == sels[r].path@.len(),
        state.rule_index < sels.len(),
        state.instruction_index >= sels[state.rule_index as int].path@.len(),
        open_source(sels, starts, vis, state, src),
        kind1_recorded(sels, points, node, state.rule_index, src),
        forall|x: int| 0 <= x < open.len() ==> (#[trigger] open[x].0.rule_index, osrc[x]) != (state.rule_index, src),
        forall|y: int| 0 <= y < matched.len() ==> (#[trigger] matched[y].0, msrc[y]) != (state.rule_index, src),
    ensures
        sources_ok(sels, starts, vis, open, osrc, matched.push((state.rule_index, caret)), msrc.push(src), points, node),
{
    reveal(sources_ok);
    let m2 = matched.push((state.rule_index, caret));
    let s2 = msrc.push(src);
    let v = SelectorState { rule_index: state.rule_index, instruction_index: src.1 };
    if src.0 != 0 {
        assert(vis[state.rule_index as int].len() == sels[state.rule_index as int].path@.len());
    }
    assert(end_source(sels, starts, state.rule_index, src));
    assert forall|x: int|
        0 <= x < m2.len() implies end_source(sels, starts, (#[trigger] m2[x]).0, s2[x]) && source_visited(
            vis,
            m2[x].0,
            s2[x],
        ) by {
        if x < matched.len() {
            assert(m2[x] == matched[x] && s2[x] == msrc[x]);
        }
    }
    assert forall|x: int, y: int|
        0 <= x < m2.len() && 0 <= y < m2.len() && x != y implies (#[trigger] m2[x].0, s2[x]) != (
        #[trigger] m2[y].0,
        s2[y],
    ) by {
        if x < matched.len() {
            assert(m2[x] == matched[x] && s2[x] == msrc[x]);
        }
        if y < matched.len() {
            assert(m2[y] == matched[y] && s2[y] == msrc[y]);
        }
    }
    assert forall|x: int, y: int|
        0 <= x < open.len() && 0 <= y < m2.len() implies (#[trigger] open[x].0.rule_index, osrc[x]) != (
        #[trigger] m2[y].0,
        s2[y],
    ) by {
        if y < matched.len() {
            assert(m2[y] == matched[y] && s2[y] == msrc[y]);
        }
    }
}

/// Marking instructions visited keeps good bookkeeping; an instruction that
/// was not visited is the source of nothing yet.
proof fn lemma_sources_mark<V>(
    sels: Seq<FlatSelector>,
    starts: Seq<SelectorState>,
    vis: Seq<Seq<bool>>,
    vis2: Seq<Seq<bool>>,
    open: Seq<(SelectorState, SelectionCaret)>,
    osrc: Seq<(int, usize)>,
    matched: Seq<(usize, SelectionCaret)>,
    msrc: Seq<(int, usize)>,
    points: Seq<(V, SelectorState)>,
    node: V,
    v: SelectorState,
)
    requires
        sources_ok(sels, starts, vis, open, osrc, matched, msrc, points, node),
        forall|w: SelectorState| #[trigger] visited_in(vis, w) ==> visited_in(vis2, w),
        !visited_in(vis, v),
    ensures
        sources_ok(sels, starts, vis2, open, osrc, matched, msrc, points, node),
        forall|x: int|
            0 <= x < open.len() ==> (#[trigger] open[x].0.rule_index, osrc[x]) != (
                v.rule_index,
                (1int, v.instruction_index),
            ) && (open[x].0.rule_index, osrc[x]) != (v.rule_index, (2int, v.instruction_index)),
        forall|y: int|
            0 <= y < matched.len() ==> (#[trigger] matched[y].0, msrc[y]) != (
                v.rule_index,
                (1int, v.instruction_index),
            ) && (matched[y].0, msrc[y]) != (v.rule_index, (2int, v.instruction_index)),
{
    reveal(sources_ok);
    assert forall|x: int| 0 <= x < open.len() implies open_source(sels, starts, vis2, (#[trigger] open[x]).0, osrc[x]) by {
        let w = SelectorState { rule_index: open[x].0.rule_index, instruction_index: osrc[x].1 };
        if osrc[x].0 != 0 {
            assert(visited_in(vis, w));
        }
    }
    assert forall|x: int|
        0 <= x < matched.len() implies end_source(sels, starts, (#[trigger] matched[x]).0, msrc[x]) && source_visited(
            vis2,
            matched[x].0,
            msrc[x],
        ) by {
        let w = SelectorState { rule_index: matched[x].0, instruction_index: msrc[x].1 };
        if msrc[x].0 != 0 {
            assert(visited_in(vis, w));
        }
    }
    assert forall|x: int|
        0 <= x < open.len() implies (#[trigger] open[x].0.rule_index, osrc[x]) != (
            v.rule_index,
            (1int, v.instruction_index),
        ) && (open[x].0.rule_index, osrc[x]) != (v.rule_index, (2int, v.instruction_index)) by {
        assert(open_source(sels, starts, vis, open[x].0, osrc[x]));
    }
    assert forall|y: int|
        0 <= y < matched.len() implies (#[trigger] matched[y].0, msrc[y]) != (
            v.rule_index,
            (1int, v.instruction_index),
        ) && (matched[y].0, msrc[y]) != (v.rule_index, (2int, v.instruction_index)) by {
        assert(source_visited(vis, matched[y].0, msrc[y]));
    }
}

/// A state pushed with a source that none of the others has keeps good bookkeeping.
proof fn lemma_sources_push<V>(
    sels: Seq<FlatSelector>,
    starts: Seq<SelectorState>,
    vis: Seq<Seq<bool>>,
    open: Seq<(SelectorState, SelectionCaret)>,
    osrc: Seq<(int, usize)>,
    matched: Seq<(usize, SelectionCaret)>,
    msrc: Seq<(int, usize)>,
    points: Seq<(V, SelectorState)>,
    node: V,
    e: (SelectorState, SelectionCaret),
    src: (int, usize),
)
    requires
        sources_ok(sels, starts, vis, open, osrc, matched, msrc, points, node),
        open_source(sels, starts, vis, e.0, src),
        kind1_recorded(sels, points, node, e.0.rule_index, src),
        forall|x: int| 0 <= x < open.len() ==> (#[trigger] open[x].0.rule_index, osrc[x]) != (e.0.rule_index, src),
        forall|y: int| 0 <= y < matched.len() ==> (#[trigger] matched[y].0, msrc[y]) != (e.0.rule_index, src),
    ensures
        sources_ok(sels, starts, vis, open.push(e), osrc.push(src), matched, msrc, points, node),
{
    reveal(sources_ok);
    let o2 = open.push(e);
    let s2 = osrc.push(src);
    assert forall|x: int| 0 <= x < o2.len() implies open_source(sels, starts, vis, (#[trigger] o2[x]).0, s2[x]) by {
        if x < open.len() {
            assert(o2[x] == open[x] && s2[x] == osrc[x]);
        }
    }
    assert forall|x: int, y: int|
        0 <= x < o2.len() && 0 <= y < o2.len() && x != y implies (#[trigger] o2[x].0.rule_index, s2[x]) != (
        #[trigger] o2[y].0.rule_index,
        s2[y],
    ) by {
        if x < open.len() {
            assert(o2[x] == open[x] && s2[x] == osrc[x]);
        }
        if y < open.len() {
            assert(o2[y] == open[y] && s2[y] == osrc[y]);
        }
    }
    assert forall|x: int, y: int|
        0 <= x < o2.len() && 0 <= y < matched.len() implies (#[trigger] o2[x].0.rule_index, s2[x]) != (
        #[trigger] matched[y].0,
        msrc[y],
    ) by {
        if x < open.len() {
            assert(o2[x] == open[x] && s2[x] == osrc[x]);
        }
    }
}

/// The sources of the matches show how often each rule may come back.
proof fn lemma_sources_result<V>(
    sels: Seq<FlatSelector>,
    starts: Seq<SelectorState>,
    vis: Seq<Seq<bool>>,
    open: Seq<(SelectorState, SelectionCaret)>,
    osrc: Seq<(int, usize)>,
    matched: Seq<(usize, SelectionCaret)>,
    msrc: Seq<(int, usize)>,
    points: Seq<(V, SelectorState)>,
    node: V,
)
    requires
        sources_ok(sels, starts, vis, open, osrc, matched, msrc, points, node),
    ensures
        msrc.len() == matched.len(),
        forall|k: int| 0 <= k < matched.len() ==> end_source(sels, starts, (#[trigger] matched[k]).0, msrc[k]),
        forall|a: int, b: int|
            0 <= a < matched.len() && 0 <= b < matched.len() && a != b ==> (#[trigger] matched[a].0, msrc[a]) != (
            #[trigger] matched[b].0,
            msrc[b],
        ),
        forall|k: int| 0 <= k < matched.len() ==> kind1_recorded(sels, points, node, (#[trigger] matched[k]).0, msrc[k]),
{
    reveal(sources_ok);
}

/// Recording more points keeps good bookkeeping.
proof fn lemma_sources_more_points<V>(
    sels: Seq<FlatSelector>,
    starts: Seq<SelectorState>,
    vis: Seq<Seq<bool>>,
    open: Seq<(SelectorState, SelectionCaret)>,
    osrc: Seq<(int, usize)>,
    matched: Seq<(usize, SelectionCaret)>,
    msrc: Seq<(int, usize)>,
    points: Seq<(V, SelectorState)>,
    points2: Seq<(V, SelectorState)>,
    node: V,
)
    requires
        sources_ok(sels, starts, vis, open, osrc, matched, msrc, points, node),
        forall|q: (V, SelectorState)| points.contains(q) ==> points2.contains(q),
    ensures
        sources_ok(sels, starts, vis, open, osrc, matched, msrc, points2, node),
{
    reveal(sources_ok);
    assert forall|x: int| 0 <= x < open.len() implies kind1_recorded(sels, points2, node, (#[trigger] open[x]).0.rule_index, osrc[x]) by {
        assert(kind1_recorded(sels, points, node, open[x].0.rule_index, osrc[x]));
    }
    assert forall|x: int| 0 <= x < matched.len() implies kind1_recorded(sels, points2, node, (#[trigger] matched[x]).0, msrc[x]) by {
        assert(kind1_recorded(sels, points, node, matched[x].0, msrc[x]));
    }
}

/// The visited flags of each selector's instructions.
spec fn rows(visited: Seq<Vec<bool>>) -> Seq<Seq<bool>> {
    visited.map_values(|v: Vec<bool>| v@)
}

/// True if the instruction of state `s` is flagged as visited.
spec fn visited_in(vis: Seq<Seq<bool>>, s: SelectorState) -> bool {
    &&& s.rule_index < vis.len()
    &&& s.instruction_index < vis[s.rule_index as int].len()
    &&& vis[s.rule_index as int][s.instruction_index as int]
}

/// True if the state `t` has been taken care of: it is still to be visited,
/// or it is at the end of its selector and the selector is among the
/// matches, or its instruction has been visited.
spec fn handled(
    sels: Seq<FlatSelector>,
    vis: Seq<Seq<bool>>,
    open: Seq<(SelectorState, SelectionCaret)>,
    matched: Seq<(usize, SelectionCaret)>,
    t: SelectorState,
) -> bool {
    ||| exists|x: int| 0 <= x < open.len() && (#[trigger] open[x]).0 == t
    ||| t.instruction_index >= sels[t.rule_index as int].path@.len() && exists|k: int|
        0 <= k < matched.len() && (#[trigger] matched[k]).0 == t.rule_index
    ||| t.instruction_index < sels[t.rule_index as int].path@.len() && visited_in(vis, t)
}

/// What was taken care of stays so while visited flags are only set, the
/// matches only grow, and the states still to be visited only lose the last
/// one (which is taken care of otherwise) and gain new ones.
proof fn lemma_handled_grows(
    sels: Seq<FlatSelector>,
    vis1: Seq<Seq<bool>>,
    open1: Seq<(SelectorState, SelectionCaret)>,
    m1: Seq<(usize, SelectionCaret)>,
    vis2: Seq<Seq<bool>>,
    open2: Seq<(SelectorState, SelectionCaret)>,
    m2: Seq<(usize, SelectionCaret)>,
    t: SelectorState,
)
    requires
        vis1.len() == vis2.len(),
        forall|r: int| 0 <= r < vis1.len() ==> (#[trigger] vis1[r]).len() == vis2[r].len(),
        forall|r: int, i: int| 0 <= r < vis1.len() && 0 <= i < vis1[r].len() && #[trigger] vis1[r][i] ==> vis2[r][i],
        open1.len() >= 1,
        open2.len() >= open1.len() - 1,
        forall|x: int| 0 <= x < open1.len() - 1 ==> open2[x] == open1[x],
        m2.len() >= m1.len(),
        forall|k: int| 0 <= k < m1.len() ==> m2[k] == m1[k],
        handled(sels, vis2, open2, m2, open1[open1.len() - 1].0),
        handled(sels, vis1, open1, m1, t),
    ensures
        handled(sels, vis2, open2, m2, t),
{
    if exists|x: int| 0 <= x < open1.len() && (#[trigger] open1[x]).0 == t {
        let x = choose|x: int| 0 <= x < open1.len() && (#[trigger] open1[x]).0 == t;
        if x < open1.len() - 1 {
            assert(open2[x] == open1[x]);
        }
    } else if t.instruction_index >= sels[t.rule_index as int].path@.len() && exists|k: int|
        0 <= k < m1.len() && (#[trigger] m1[k]).0 == t.rule_index {
        let k = choose|k: int| 0 <= k < m1.len() && (#[trigger] m1[k]).0 == t.rule_index;
        assert(m2[k] == m1[k]);
    } else {
        assert(vis1[t.rule_index as int][t.instruction_index as int]);
    }
}

/// Once nothing is left to visit, every state that resolving is bound to reach
/// has been taken care of.
proof fn lemma_bound_closed<V, F: Fn(&Expression) -> bool>(
    sels: Seq<FlatSelector>,
    condition_holds: F,
    pts: Seq<(V, SelectorState)>,
    node: V,
    starts: Seq<SelectorState>,
    vis: Seq<Seq<bool>>,
    matched: Seq<(usize, SelectionCaret)>,
    run: Seq<SelectorState>,
)
    requires
        forall|k: int| 0 <= k < starts.len() ==> handled(sels, vis, Seq::empty(), matched, #[trigger] starts[k]),
        forall|v: SelectorState, t: SelectorState|
            #[trigger] bound_transition(sels, condition_holds, pts, node, v, t) && visited_in(vis, v) ==> handled(
                sels,
                vis,
                Seq::empty(),
                matched,
                t,
            ),
        is_bound_run(sels, condition_holds, pts, node, run),
        starts.contains(run[0]),
    ensures
        handled(sels, vis, Seq::empty(), matched, run.last()),
    decreases run.len(),
{
    if run.len() == 1 {
        let k = choose|k: int| 0 <= k < starts.len() && starts[k] == run[0];
        assert(handled(sels, vis, Seq::empty(), matched, starts[k]));
    } else {
        let prefix = run.drop_last();
        assert forall|i: int| 0 <= i < prefix.len() - 1 implies #[trigger] bound_transition(
            sels,
            condition_holds,
            pts,
            node,
            prefix[i],
            prefix[i + 1],
        ) by {
            assert(prefix[i] == run[i] && prefix[i + 1] == run[i + 1]);
            assert(bound_transition(sels, condition_holds, pts, node, run[i], run[i + 1]));
        }
        assert(prefix[0] == run[0]);
        lemma_bound_closed(sels, condition_holds, pts, node, starts, vis, matched, prefix);
        let i = run.len() - 2;
        let v = run[i];
        assert(prefix.last() == v);
        assert(bound_transition(sels, condition_holds, pts, node, run[i], run[i + 1]));
        assert(run[i + 1] == run.last());
        assert(visited_in(vis, v));
    }
}

impl<'a, T: NodeId> SelectorResolver<'a, T> {
    /// The compiled selectors that are being resolved.
    pub closed spec fn selector_seq(&self) -> Seq<FlatSelector> {
        self.selectors.0@
    }

    /// The pairs of a node and a node-matching instruction that have matched
    /// so far, nodes taken by their views.
    pub closed spec fn matched_points(&self) -> Seq<(T::V, SelectorState)> {
        self.matched_sequence_points@.map_values(|p: (T, SelectorState)| (p.0@, p.1))
    }

    /// The states in each frame of the resolution stack, from the bottom up.
    pub closed spec fn frames(&self) -> Seq<Seq<SelectorState>> {
        self.stack@.map_values(|f: ResolveFrame| f.active_states@)
    }

    /// The resolver's invariant: the stack is never empty, every state
    /// belongs to one of the selectors, and no node has matched a
    /// node-matching instruction twice.
    pub closed spec fn wf(&self) -> bool {
        &&& self.stack@.len() >= 1
        &&& forall|i: int, j: int|
            0 <= i < self.matched_points().len() && 0 <= j < self.matched_points().len() && i != j
                ==> #[trigger] self.matched_points()[i] != #[trigger] self.matched_points()[j]
        &&& forall|k: int|
            0 <= k < self.stack@.len() ==> states_in_range(
                (#[trigger] self.stack@[k]).active_states@,
                self.selectors.0@.len() as int,
            )
    }

    /// A resolver of a stylesheet's selectors, with every selector at its first instruction.
    pub fn new(selectors: &'a CascadeSelector) -> (r: Self)
        ensures
            r.wf(),
            r.selector_seq() == selectors.0@,
            r.matched_points().len() == 0,
            r.frames().len() == 1,
            r.frames()[0].len() == selectors.0@.len(),
            forall|i: int|
                0 <= i < selectors.0@.len() ==> (#[trigger] r.frames()[0][i]).rule_index == i
                    && r.frames()[0][i].instruction_index == 0,
    {
        let states = all_starting_states(selectors);
        let mut stack: Vec<ResolveFrame> = Vec::new();
        stack.push(ResolveFrame { active_states: states });
        let r = SelectorResolver { selectors, matched_sequence_points: Vec::new(), stack };
        assert(r.frames()[0] == states@);
        r
    }

    /// Notifies the resolver that an edge has been traversed: a new frame holds
    /// the states of the top frame that awaited an edge matching `edge_label`,
    /// each moved past it, in their order.
    pub fn push_edge(&mut self, edge_label: &EdgeLabel)
        requires
            old(self).wf(),
        ensures
            final(self).wf(),
            final(self).selector_seq() == old(self).selector_seq(),
            final(self).matched_points() == old(self).matched_points(),
            final(self).frames() == old(self).frames().push(
                states_after_edge(old(self).selector_seq(), old(self).frames().last(), edge_label@),
            ),
    {
        let top = self.stack.len() - 1;
        let n = self.selectors.0.len();
        let mut active_states: Vec<SelectorState> = Vec::new();
        let mut k: usize = 0;
        let ghost old_top = self.stack@[top as int].active_states@;
        let ghost sels = self.selectors.0@;
        assert(old(self).frames().last() == old_top);
        while k < self.stack[top].active_states.len()
            invariant
                self.wf(),
                top == self.stack@.len() - 1,
                n == self.selectors.0@.len(),
                sels == self.selectors.0@,
                old_top == self.stack@[top as int].active_states@,
                self.stack@ == old(self).stack@,
                self.selectors == old(self).selectors,
                k <= old_top.len(),
                active_states@ == states_after_edge(sels, old_top.take(k as int), edge_label@),
            decreases old_top.len() - k,
        {
            let state = self.stack[top].active_states[k];
            assert(old_top.take(k + 1).drop_last() =~= old_top.take(k as int));
            assert(states_in_range(self.stack@[top as int].active_states@, n as int));
            assert(state.rule_index < n);
            let path = &self.selectors.0[state.rule_index].path;
            if state.instruction_index < path.len() {
                match &path[state.instruction_index] {
                    FlatSelectorSegment::MatchEdge(matcher) => {
                        if matcher.matches(edge_label) {
                            active_states.push(state.advance());
                        }
                    },
                    _ => {},
                }
            }
            k += 1;
        }
        assert(old_top.take(old_top.len() as int) =~= old_top);
        proof {
            lemma_states_after_edge_in_range(sels, old_top, edge_label@);
        }
        self.stack.push(ResolveFrame { active_states });
        proof {
            assert(self.frames() =~= old(self).frames().push(active_states@));
            assert(self.matched_points() == old(self).matched_points());
            assert forall|x: int| 0 <= x < self.stack@.len() implies states_in_range(
                (#[trigger] self.stack@[x]).active_states@,
                self.selectors.0@.len() as int,
            ) by {
                if x < old(self).stack@.len() {
                    assert(self.stack@[x] == old(self).stack@[x]);
                }
            }
        }
    }

    /// Reverts the resolver to the state before the last edge was traversed;
    /// the bottom frame is never popped.
    pub fn pop_edge(&mut self)
        requires
            old(self).wf(),
        ensures
            final(self).wf(),
            final(self).selector_seq() == old(self).selector_seq(),
            final(self).matched_points() == old(self).matched_points(),
            final(self).frames() == if old(self).frames().len() > 1 {
                old(self).frames().drop_last()
            } else {
                old(self).frames()
            },
    {
        assert(self.matched_points() == old(self).matched_points());
        if self.stack.len() > 1 {
            self.stack.pop();
            proof {
                assert(self.frames() =~= old(self).frames().drop_last());
            }
        }
    }

    /// True if some selector awaits an outgoing edge; when false, pushing
    /// edges and resolving nodes yields nothing new.
    pub fn has_edges_to_resolve(&self) -> (r: bool)
        requires
            self.wf(),
        ensures
            r == (self.frames().last().len() > 0),
    {
        let top = self.stack.len() - 1;
        self.stack[top].active_states.len() > 0
    }

    /// Resolves all selectors over a node, given whether each restriction
    /// condition holds there: follows every transition that takes no edge
    /// from the states of the top frame, and returns the selectors that reached
    /// their end, with what they passed last. The top frame is replaced by the
    /// states that await an edge after having committed to the node.
    ///
    /// Each instruction is visited at most once per node, and each node
    /// matches each node-matching instruction at most once over the whole
    /// resolution. Every selector whose end resolving is bound to reach is
    /// returned, and every state awaiting an edge that is only reached after
    /// committing to the node is kept. Every node-matching instruction that
    /// resolving is bound to reach has the node recorded there afterwards.
    pub fn resolve_node<F: Fn(&Expression) -> bool>(&mut self, node: T, condition_holds: F) -> (r: Vec<(usize, SelectionCaret)>)
        requires
            old(self).wf(),
            forall|e: &Expression| call_requires(condition_holds, (e,)),
        ensures
            final(self).wf(),
            final(self).selector_seq() == old(self).selector_seq(),
            final(self).frames().len() == old(self).frames().len(),
            final(self).frames().drop_last() == old(self).frames().drop_last(),
            forall|k: int| 0 <= k < r@.len() ==> (#[trigger] r@[k]).0 < old(self).selector_seq().len(),
            forall|k: int|
                0 <= k < final(self).frames().last().len() ==> {
                    let s = #[trigger] final(self).frames().last()[k];
                    &&& s.instruction_index < final(self).selector_seq()[s.rule_index as int].path@.len()
                    &&& final(self).selector_seq()[s.rule_index as int].path@[s.instruction_index as int] is MatchEdge
                },
            old(self).frames().last().len() == 0 ==> r@.len() == 0 && final(self).frames().last().len() == 0,
            forall|i: int, j: int|
                0 <= i < final(self).frames().last().len() && 0 <= j < final(self).frames().last().len() && i != j
                    ==> #[trigger] final(self).frames().last()[i] != #[trigger] final(self).frames().last()[j],
            forall|i: int|
                old(self).matched_points().len() <= i < final(self).matched_points().len() ==> {
                    let p = #[trigger] final(self).matched_points()[i];
                    &&& p.1.instruction_index < final(self).selector_seq()[p.1.rule_index as int].path@.len()
                    &&& final(self).selector_seq()[p.1.rule_index as int].path@[p.1.instruction_index as int] is MatchNode
                    &&& p.0 == node@
                    &&& !old(self).matched_points().contains(p)
                },
            old(self).matched_points().len() <= final(self).matched_points().len(),
            final(self).matched_points().take(old(self).matched_points().len() as int) == old(
                self,
            ).matched_points(),
            exists|srcs: Seq<(int, usize)>|
                #[trigger] matches_have_sources(
                    old(self).selector_seq(),
                    old(self).frames().last(),
                    final(self).matched_points(),
                    node@,
                    r@,
                    srcs,
                ),
            forall|k: int|
                0 <= k < r@.len() ==> node_reaches_end(
                    old(self).selector_seq(),
                    condition_holds,
                    old(self).matched_points(),
                    node@,
                    old(self).frames().last(),
                    #[trigger] r@[k],
                ),
            forall|k: int|
                0 <= k < final(self).frames().last().len() ==> node_reaches(
                    old(self).selector_seq(),
                    condition_holds,
                    old(self).matched_points(),
                    node@,
                    old(self).frames().last(),
                    #[trigger] final(self).frames().last()[k],
                    SelectionCaret::Node,
                ),
            forall|i: int|
                old(self).matched_points().len() <= i < final(self).matched_points().len() ==> {
                    let s = (#[trigger] final(self).matched_points()[i]).1;
                    node_reaches(
                        old(self).selector_seq(),
                        condition_holds,
                        old(self).matched_points(),
                        node@,
                        old(self).frames().last(),
                        s,
                        SelectionCaret::Node,
                    ) || node_reaches(
                        old(self).selector_seq(),
                        condition_holds,
                        old(self).matched_points(),
                        node@,
                        old(self).frames().last(),
                        s,
                        SelectionCaret::PrecedingEdge,
                    )
                },
            forall|s: SelectorState|
                s.rule_index < old(self).selector_seq().len() && s.instruction_index >= old(
                    self,
                ).selector_seq()[s.rule_index as int].path@.len() && #[trigger] bound_reaches(
                    old(self).selector_seq(),
                    condition_holds,
                    old(self).matched_points(),
                    node@,
                    old(self).frames().last(),
                    s,
                ) ==> exists|k: int| 0 <= k < r@.len() && (#[trigger] r@[k]).0 == s.rule_index,
            forall|s: SelectorState|
                #[trigger] bound_reaches(
                    old(self).selector_seq(),
                    condition_holds,
                    old(self).matched_points(),
                    node@,
                    old(self).frames().last(),
                    s,
                ) && s.rule_index < old(self).selector_seq().len() && s.instruction_index < old(
                    self,
                ).selector_seq()[s.rule_index as int].path@.len() && old(
                    self,
                ).selector_seq()[s.rule_index as int].path@[s.instruction_index as int] is MatchEdge && !node_reaches(
                    old(self).selector_seq(),
                    condition_holds,
                    old(self).matched_points(),
                    node@,
                    old(self).frames().last(),
                    s,
                    SelectionCaret::PrecedingEdge,
                ) ==> final(self).frames().last().contains(s),
            forall|s: SelectorState|
                #[trigger] bound_reaches(
                    old(self).selector_seq(),
                    condition_holds,
                    old(self).matched_points(),
                    node@,
                    old(self).frames().last(),
                    s,
                ) && s.rule_index < old(self).selector_seq().len() && s.instruction_index < old(
                    self,
                ).selector_seq()[s.rule_index as int].path@.len() && old(
                    self,
                ).selector_seq()[s.rule_index as int].path@[s.instruction_index as int] is MatchNode
                    ==> final(self).matched_points().contains((node@, s)),
    {
        let n = self.selectors.0.len();
        let ghost sels = self.selectors.0@;
        let ghost pts_old = self.matched_points();
        let frame = self.stack.pop().unwrap();
        let ghost rest = self.stack@;
        let ghost starts = frame.active_states@;
        assert(starts == old(self).frames().last());
        // Every state that is yet to be visited, with what the selector passed last
        let mut open_states: Vec<(SelectorState, SelectionCaret)> = Vec::new();
        let mut k: usize = 0;
        assert(states_in_range(frame.active_states@, n as int));
        while k < frame.active_states.len()
            invariant
                k <= frame.active_states@.len(),
                states_in_range(frame.active_states@, n as int),
                open_states@.len() == k,
                forall|x: int| 0 <= x < k ==> (#[trigger] open_states@[x]).0 == frame.active_states@[x],
                forall|x: int| 0 <= x < open_states@.len() ==> (#[trigger] open_states@[x]).0.rule_index < n,
                starts == frame.active_states@,
                forall|x: int|
                    0 <= x < open_states@.len() ==> node_reaches(
                        sels,
                        condition_holds,
                        pts_old, node@,
                        starts,
                        (#[trigger] open_states@[x]).0,
                        open_states@[x].1,
                    ),
            decreases frame.active_states@.len() - k,
        {
            let s = frame.active_states[k];
            let ghost before = open_states@;
            open_states.push((s, SelectionCaret::PrecedingEdge));
            proof {
                lemma_node_reaches_start(sels, condition_holds, pts_old, node@, starts, k as int);
                assert forall|x: int| 0 <= x < open_states@.len() implies (#[trigger] open_states@[x]).0.rule_index < n by {
                    if x < before.len() {
                        assert(open_states@[x] == before[x]);
                    }
                }
                assert forall|x: int| 0 <= x < k + 1 implies (#[trigger] open_states@[x]).0 == frame.active_states@[x] by {
                    if x < before.len() {
                        assert(open_states@[x] == before[x]);
                    }
                }
                assert forall|x: int|
                    0 <= x < open_states@.len() implies node_reaches(
                        sels,
                        condition_holds,
                        pts_old, node@,
                        starts,
                        (#[trigger] open_states@[x]).0,
                        open_states@[x].1,
                    ) by {
                    if x < before.len() {
                        assert(open_states@[x] == before[x]);
                    }
                }
            }
            k += 1;
        }
        // Instructions visited while resolving this node
        let mut visited: Vec<Vec<bool>> = Vec::new();
        let mut r_i: usize = 0;
        while r_i < n
            invariant
                r_i <= n,
                n == self.selectors.0@.len(),
                visited@.len() == r_i,
                forall|x: int| 0 <= x < r_i ==> (#[trigger] visited@[x])@.len() == self.selectors.0@[x].path@.len(),
                forall|x: int, i: int| 0 <= x < r_i && 0 <= i < visited@[x]@.len() ==> !#[trigger] visited@[x]@[i],
            decreases n - r_i,
        {
            let len = self.selectors.0[r_i].path.len();
            let mut row: Vec<bool> = Vec::new();
            let mut c: usize = 0;
            while c < len
                invariant
                    c <= len,
                    row@.len() == c,
                    forall|i: int| 0 <= i < c ==> !#[trigger] row@[i],
                decreases len - c,
            {
                row.push(false);
                c += 1;
            }
            let ghost before = visited@;
            visited.push(row);
            proof {
                assert forall|x: int| 0 <= x < r_i + 1 implies (#[trigger] visited@[x])@.len() == self.selectors.0@[x].path@.len() by {
                    if x < r_i {
                        assert(visited@[x] == before[x]);
                    }
                }
                assert forall|x: int, i: int| 0 <= x < r_i + 1 && 0 <= i < visited@[x]@.len() implies !#[trigger] visited@[x]@[i] by {
                    if x < r_i {
                        assert(visited@[x] == before[x]);
                    }
                }
            }
            r_i += 1;
        }
        let mut output_states: Vec<SelectorState> = Vec::new();
        let mut matched_rules: Vec<(usize, SelectionCaret)> = Vec::new();
        // Where each state still to be visited, and each match, came from
        let ghost mut osrc: Seq<(int, usize)> = Seq::new(open_states@.len(), |x: int| (0int, x as usize));
        let ghost mut msrc: Seq<(int, usize)> = Seq::empty();
        proof {
            lemma_sources_start(sels, starts, rows(visited@), open_states@, osrc, self.matched_points(), node@);
            assert forall|q: int| 0 <= q < starts.len() implies handled(
                sels,
                rows(visited@),
                open_states@,
                matched_rules@,
                #[trigger] starts[q],
            ) by {
                assert(open_states@[q].0 == starts[q]);
            }
            assert forall|v: SelectorState| !#[trigger] visited_in(rows(visited@), v) by {
                if visited_in(rows(visited@), v) {
                    assert(rows(visited@)[v.rule_index as int] == visited@[v.rule_index as int]@);
                }
            }
        }
        while open_states.len() > 0
            invariant
                n == self.selectors.0@.len(),
                self.selectors == old(self).selectors,
                self.stack@ == rest,
                rest == old(self).stack@.drop_last(),
                forall|x: int| 0 <= x < rest.len() ==> states_in_range((#[trigger] rest[x]).active_states@, n as int),
                forall|c: &Expression| call_requires(condition_holds, (c,)),
                visited@.len() == n,
                forall|x: int| 0 <= x < n ==> (#[trigger] visited@[x])@.len() == self.selectors.0@[x].path@.len(),
                forall|x: int| 0 <= x < open_states@.len() ==> (#[trigger] open_states@[x]).0.rule_index < n,
                forall|x: int| 0 <= x < matched_rules@.len() ==> (#[trigger] matched_rules@[x]).0 < n,
                frame.active_states@.len() == 0 ==> open_states@.len() == 0 && matched_rules@.len() == 0
                    && output_states@.len() == 0,
                pts_old == old(self).matched_points(),
                pts_old.len() <= self.matched_points().len(),
                self.matched_points().take(pts_old.len() as int) == pts_old,
                forall|i: int, j: int|
                    0 <= i < self.matched_points().len() && 0 <= j < self.matched_points().len() && i != j
                        ==> #[trigger] self.matched_points()[i] != #[trigger] self.matched_points()[j],
                forall|x: int|
                    0 <= x < output_states@.len() ==> {
                        let s = #[trigger] output_states@[x];
                        &&& s.rule_index < n
                        &&& s.instruction_index < self.selectors.0@[s.rule_index as int].path@.len()
                        &&& self.selectors.0@[s.rule_index as int].path@[s.instruction_index as int] is MatchEdge
                        &&& visited@[s.rule_index as int]@[s.instruction_index as int]
                    },
                forall|x: int, y: int|
                    0 <= x < output_states@.len() && 0 <= y < output_states@.len() && x != y
                        ==> #[trigger] output_states@[x] != #[trigger] output_states@[y],
                forall|i: int|
                    pts_old.len() <= i < self.matched_points().len() ==> {
                        let p = #[trigger] self.matched_points()[i];
                        &&& p.1.rule_index < n
                        &&& p.1.instruction_index < self.selectors.0@[p.1.rule_index as int].path@.len()
                        &&& self.selectors.0@[p.1.rule_index as int].path@[p.1.instruction_index as int] is MatchNode
                        &&& p.0 == node@
                        &&& !pts_old.contains(p)
                        &&& visited_in(rows(visited@), p.1)
                    },
                sels == self.selectors.0@,
                starts == old(self).frames().last(),
                forall|x: int|
                    0 <= x < open_states@.len() ==> node_reaches(
                        sels,
                        condition_holds,
                        pts_old, node@,
                        starts,
                        (#[trigger] open_states@[x]).0,
                        open_states@[x].1,
                    ),
                forall|x: int|
                    0 <= x < matched_rules@.len() ==> node_reaches_end(
                        sels,
                        condition_holds,
                        pts_old, node@,
                        starts,
                        #[trigger] matched_rules@[x],
                    ),
                forall|x: int|
                    0 <= x < output_states@.len() ==> node_reaches(
                        sels,
                        condition_holds,
                        pts_old, node@,
                        starts,
                        #[trigger] output_states@[x],
                        SelectionCaret::Node,
                    ),
                forall|i: int|
                    pts_old.len() <= i < self.matched_points().len() ==> {
                        let s = (#[trigger] self.matched_points()[i]).1;
                        node_reaches(sels, condition_holds, pts_old, node@, starts, s, SelectionCaret::Node) || node_reaches(
                            sels,
                            condition_holds,
                            pts_old, node@,
                            starts,
                            s,
                            SelectionCaret::PrecedingEdge,
                        )
                    },
                forall|q: int|
                    0 <= q < starts.len() ==> handled(
                        sels,
                        rows(visited@),
                        open_states@,
                        matched_rules@,
                        #[trigger] starts[q],
                    ),
                forall|v: SelectorState, t: SelectorState|
                    #[trigger] bound_transition(sels, condition_holds, pts_old, node@, v, t) && visited_in(
                        rows(visited@),
                        v,
                    ) ==> handled(sels, rows(visited@), open_states@, matched_rules@, t),
                forall|v: SelectorState|
                    #[trigger] visited_in(rows(visited@), v) && v.rule_index < n && v.instruction_index
                        < sels[v.rule_index as int].path@.len() && sels[v.rule_index as int].path@[v.instruction_index as int]
                        is MatchEdge && !node_reaches(sels, condition_holds, pts_old, node@, starts, v, SelectionCaret::PrecedingEdge)
                        ==> output_states@.contains(v),
                forall|v: SelectorState|
                    #[trigger] visited_in(rows(visited@), v) && v.rule_index < n && v.instruction_index
                        < sels[v.rule_index as int].path@.len() && sels[v.rule_index as int].path@[v.instruction_index as int]
                        is MatchNode ==> self.matched_points().contains((node@, v)),
                sources_ok(sels, starts, rows(visited@), open_states@, osrc, matched_rules@, msrc, self.matched_points(), node@),
                osrc.len() == open_states@.len(),
                msrc.len() == matched_rules@.len(),
            decreases count_unvisited(rows(visited@)), open_states@.len(),
        {
            let ghost pre_open = open_states@;
            let ghost pre_osrc = osrc;
            let ghost pre_msrc = msrc;
            let ghost pre_rows = rows(visited@);
            let ghost pre_matched = matched_rules@;
            let ghost pre_out = output_states@;
            let ghost pre_points = self.matched_points();
            let (state, target) = open_states.pop().unwrap();
            let ghost popped = open_states@;
            assert(pre_open[pre_open.len() - 1] == (state, target));
            proof {
                lemma_sources_pop(sels, starts, pre_rows, pre_open, pre_osrc, pre_matched, pre_msrc, pre_points, node@);
                assert(popped == pre_open.drop_last());
                assert(pre_open.last() == (state, target));
            }
            let ghost src = osrc.last();
            proof {
                osrc = osrc.drop_last();
            }
            assert(state.rule_index < n);
            assert(node_reaches(sels, condition_holds, pts_old, node@, starts, state, target));
            let path = &self.selectors.0[state.rule_index].path;
            if state.instruction_index >= path.len() {
                // The selector has reached its end, so it matches
                matched_rules.push((state.rule_index, target));
                proof {
                    assert forall|r: int| 0 <= r < pre_rows.len() implies (#[trigger] pre_rows[r]).len()
                        == sels[r].path@.len() by {
                        assert(pre_rows[r] == visited@[r]@);
                    }
                    lemma_sources_match(sels, starts, pre_rows, popped, osrc, pre_matched, pre_msrc, pre_points, node@, state, target, src);
                    msrc = msrc.push(src);
                    assert(matched_rules@[matched_rules@.len() - 1].0 == state.rule_index);
                    assert forall|x: int| 0 <= x < matched_rules@.len() implies (#[trigger] matched_rules@[x]).0 < n by {
                        if x < pre_matched.len() {
                            assert(matched_rules@[x] == pre_matched[x]);
                        }
                    }
                    assert forall|x: int|
                        0 <= x < matched_rules@.len() implies node_reaches_end(
                            sels,
                            condition_holds,
                            pts_old, node@,
                            starts,
                            #[trigger] matched_rules@[x],
                        ) by {
                        if x < pre_matched.len() {
                            assert(matched_rules@[x] == pre_matched[x]);
                        } else {
                            assert(node_reaches(
                                sels,
                                condition_holds,
                                pts_old, node@,
                                starts,
                                SelectorState { rule_index: matched_rules@[x].0, instruction_index: state.instruction_index },
                                matched_rules@[x].1,
                            ));
                        }
                    }
                    assert(open_states@ == popped);
                }
            } else if !visited[state.rule_index][state.instruction_index] {
                proof {
                    assert(!visited_in(pre_rows, state));
                }
                let mut row = visited.remove(state.rule_index);
                row.set(state.instruction_index, true);
                visited.insert(state.rule_index, row);
                proof {
                    let rows_after = rows(visited@);
                    assert(rows_after =~= pre_rows.update(
                        state.rule_index as int,
                        pre_rows[state.rule_index as int].update(state.instruction_index as int, true),
                    ));
                    lemma_count_unvisited_update(pre_rows, state.rule_index as int, state.instruction_index as int);
                    assert forall|x: int| 0 <= x < n implies (#[trigger] visited@[x])@.len() == self.selectors.0@[x].path@.len() by {
                        assert(rows_after[x] == visited@[x]@);
                    }
                    assert forall|x: int| 0 <= x < output_states@.len() implies {
                        let s = #[trigger] output_states@[x];
                        visited@[s.rule_index as int]@[s.instruction_index as int]
                    } by {
                        let s = output_states@[x];
                        assert(pre_rows[s.rule_index as int][s.instruction_index as int]);
                        assert(rows_after[s.rule_index as int] == visited@[s.rule_index as int]@);
                    }
                    assert forall|x: int| 0 <= x < output_states@.len() implies #[trigger] output_states@[x] != state by {
                        let s = output_states@[x];
                        assert(pre_rows[s.rule_index as int][s.instruction_index as int]);
                    }
                    assert(visited_in(rows_after, state));
                    assert(visited@[state.rule_index as int]@[state.instruction_index as int]) by {
                        assert(rows_after[state.rule_index as int] == visited@[state.rule_index as int]@);
                    }
                    assert forall|v: SelectorState| #[trigger] visited_in(pre_rows, v) implies visited_in(rows_after, v) by {}
                    lemma_sources_mark(sels, starts, pre_rows, rows_after, popped, osrc, pre_matched, pre_msrc, pre_points, node@, state);
                    assert forall|r: int, i: int| 0 <= r < pre_rows.len() && 0 <= i < pre_rows[r].len() && #[trigger] pre_rows[r][i]
                        implies rows_after[r][i] by {}
                    assert forall|i: int| pts_old.len() <= i < self.matched_points().len() implies visited_in(
                        rows(visited@),
                        (#[trigger] self.matched_points()[i]).1,
                    ) by {
                        assert(visited_in(pre_rows, self.matched_points()[i].1));
                    }
                }
                match &path[state.instruction_index] {
                    FlatSelectorSegment::MatchEdge(_) => {
                        // An edge may only be traversed once the node was committed to
                        if target == SelectionCaret::Node {
                            let ghost before = output_states@;
                            output_states.push(state);
                            proof {
                                assert(output_states@[output_states@.len() - 1] == state);
                                assert forall|x: int| 0 <= x < output_states@.len() implies {
                                    let s = #[trigger] output_states@[x];
                                    &&& s.rule_index < n
                                    &&& s.instruction_index < self.selectors.0@[s.rule_index as int].path@.len()
                                    &&& self.selectors.0@[s.rule_index as int].path@[s.instruction_index as int] is MatchEdge
                                    &&& visited@[s.rule_index as int]@[s.instruction_index as int]
                                } by {
                                    if x < before.len() {
                                        assert(output_states@[x] == before[x]);
                                    }
                                }
                                assert forall|x: int|
                                    0 <= x < output_states@.len() implies node_reaches(
                                        sels,
                                        condition_holds,
                                        pts_old, node@,
                                        starts,
                                        #[trigger] output_states@[x],
                                        SelectionCaret::Node,
                                    ) by {
                                    if x < before.len() {
                                        assert(output_states@[x] == before[x]);
                                    }
                                }
                                assert forall|x: int, y: int|
                                    0 <= x < output_states@.len() && 0 <= y < output_states@.len() && x != y
                                        implies #[trigger] output_states@[x] != #[trigger] output_states@[y] by {
                                    if x < before.len() {
                                        assert(output_states@[x] == before[x]);
                                    }
                                    if y < before.len() {
                                        assert(output_states@[y] == before[y]);
                                    }
                                }
                            }
                        }
                        proof {
                            assert(open_states@ == popped);
                        }
                    },
                    FlatSelectorSegment::MatchNode => {
                        // Proceed only if this node has never been matched here
                        let mut seen = false;
                        let mut m: usize = 0;
                        while m < self.matched_sequence_points.len()
                            invariant
                                m <= self.matched_sequence_points@.len(),
                                seen == exists|y: int|
                                    0 <= y < m && #[trigger] self.matched_points()[y] == (node@, state),
                            decreases self.matched_sequence_points@.len() - m,
                        {
                            let same = self.matched_sequence_points[m].0.is_same(&node)
                                && self.matched_sequence_points[m].1 == state;
                            proof {
                                assert(self.matched_points()[m as int] == (
                                    self.matched_sequence_points@[m as int].0@,
                                    self.matched_sequence_points@[m as int].1,
                                ));
                            }
                            if same {
                                seen = true;
                            }
                            m += 1;
                        }
                        if !seen {
                            let copy = node.copied();
                            let ghost points_before = self.matched_points();
                            self.matched_sequence_points.push((copy, state));
                            proof {
                                assert(self.matched_points() =~= points_before.push((node@, state)));
                                assert(self.matched_points().take(pts_old.len() as int) =~= points_before.take(
                                    pts_old.len() as int,
                                ));
                                assert(!pts_old.contains((node@, state))) by {
                                    if pts_old.contains((node@, state)) {
                                        let y = choose|y: int| 0 <= y < pts_old.len() && pts_old[y] == (node@, state);
                                        assert(points_before.take(pts_old.len() as int)[y] == points_before[y]);
                                    }
                                }
                                assert forall|i: int|
                                    pts_old.len() <= i < self.matched_points().len() implies {
                                        let p = #[trigger] self.matched_points()[i];
                                        &&& p.1.rule_index < n
                                        &&& p.1.instruction_index < self.selectors.0@[p.1.rule_index as int].path@.len()
                                        &&& self.selectors.0@[p.1.rule_index as int].path@[p.1.instruction_index as int] is MatchNode
                                        &&& p.0 == node@
                                        &&& !pts_old.contains(p)
                                        &&& visited_in(rows(visited@), p.1)
                                    } by {
                                    if i < points_before.len() {
                                        assert(self.matched_points()[i] == points_before[i]);
                                    }
                                }
                                assert forall|i: int, j: int|
                                    0 <= i < self.matched_points().len() && 0 <= j < self.matched_points().len() && i != j
                                        implies #[trigger] self.matched_points()[i] != #[trigger] self.matched_points()[j] by {
                                    if i < points_before.len() && j < points_before.len() {
                                        assert(self.matched_points()[i] == points_before[i]);
                                        assert(self.matched_points()[j] == points_before[j]);
                                    } else if i < points_before.len() {
                                        assert(self.matched_points()[i] == points_before[i]);
                                    } else {
                                        assert(self.matched_points()[j] == points_before[j]);
                                    }
                                }
                                assert forall|i: int|
                                    pts_old.len() <= i < self.matched_points().len() implies {
                                        let s = (#[trigger] self.matched_points()[i]).1;
                                        node_reaches(sels, condition_holds, pts_old, node@, starts, s, SelectionCaret::Node) || node_reaches(
                                            sels,
                                            condition_holds,
                                            pts_old, node@,
                                            starts,
                                            s,
                                            SelectionCaret::PrecedingEdge,
                                        )
                                    } by {
                                    if i < points_before.len() {
                                        assert(self.matched_points()[i] == points_before[i]);
                                    }
                                }
                            }
                            let ghost before_push = open_states@;
                            let next = state.advance();
                            open_states.push((next, SelectionCaret::Node));
                            proof {
                                assert(before_push == popped);
                                assert forall|q: (T::V, SelectorState)| pre_points.contains(q) implies self.matched_points().contains(
                                    q,
                                ) by {
                                    let y = choose|y: int| 0 <= y < pre_points.len() && pre_points[y] == q;
                                    assert(self.matched_points()[y] == q);
                                }
                                lemma_sources_more_points(
                                    sels,
                                    starts,
                                    rows(visited@),
                                    popped,
                                    osrc,
                                    matched_rules@,
                                    msrc,
                                    pre_points,
                                    self.matched_points(),
                                    node@,
                                );
                                assert(self.matched_points()[self.matched_points().len() - 1] == (node@, state));
                                assert(self.matched_points().contains((node@, state)));
                                assert(self.matched_points().take(pre_points.len() as int) =~= pre_points);
                                lemma_sources_push(
                                    sels,
                                    starts,
                                    rows(visited@),
                                    popped,
                                    osrc,
                                    matched_rules@,
                                    msrc,
                                    self.matched_points(),
                                    node@,
                                    (next, SelectionCaret::Node),
                                    (1int, state.instruction_index),
                                );
                                osrc = osrc.push((1int, state.instruction_index));
                                lemma_node_reaches_step(sels, condition_holds, pts_old, node@, starts, state, target, next);
                                assert(open_states@[open_states@.len() - 1].0 == next);
                            }
                        } else {
                            proof {
                                // The point has matched before this call: it is an old one
                                let y = choose|y: int|
                                    0 <= y < m && #[trigger] self.matched_points()[y] == (node@, state);
                                if y >= pts_old.len() {
                                    assert(visited_in(pre_rows, state));
                                }
                                assert(self.matched_points().take(pts_old.len() as int)[y] == self.matched_points()[y]);
                                assert(pts_old.contains((node@, state)));
                                assert(self.matched_points().contains((node@, state)));
                            }
                        }
                        proof {
                            assert(open_states@.subrange(0, popped.len() as int) =~= popped);
                        }
                    },
                    FlatSelectorSegment::Restrict(condition) => {
                        let holds = condition_holds(condition);
                        if holds {
                            let next = state.advance();
                            open_states.push((next, target));
                            proof {
                                lemma_sources_push(
                                    sels,
                                    starts,
                                    rows(visited@),
                                    popped,
                                    osrc,
                                    matched_rules@,
                                    msrc,
                                    self.matched_points(),
                                    node@,
                                    (next, target),
                                    (1int, state.instruction_index),
                                );
                                osrc = osrc.push((1int, state.instruction_index));
                                lemma_node_reaches_step(sels, condition_holds, pts_old, node@, starts, state, target, next);
                                assert(open_states@[open_states@.len() - 1].0 == next);
                            }
                        }
                        proof {
                            assert(open_states@.subrange(0, popped.len() as int) =~= popped);
                        }
                    },
                    FlatSelectorSegment::Branch(next_state) => {
                        let jumped = state.jump(*next_state);
                        let next = state.advance();
                        open_states.push((jumped, target));
                        open_states.push((next, target));
                        proof {
                            lemma_sources_push(
                                sels,
                                starts,
                                rows(visited@),
                                popped,
                                osrc,
                                matched_rules@,
                                msrc,
                                self.matched_points(),
                                node@,
                                (jumped, target),
                                (2int, state.instruction_index),
                            );
                            let mid = popped.push((jumped, target));
                            let mid_src = osrc.push((2int, state.instruction_index));
                            assert forall|x: int| 0 <= x < mid.len() implies (#[trigger] mid[x].0.rule_index, mid_src[x]) != (
                                next.rule_index,
                                (1int, state.instruction_index),
                            ) by {
                                if x < popped.len() {
                                    assert(mid[x] == popped[x] && mid_src[x] == osrc[x]);
                                }
                            }
                            lemma_sources_push(
                                sels,
                                starts,
                                rows(visited@),
                                mid,
                                mid_src,
                                matched_rules@,
                                msrc,
                                self.matched_points(),
                                node@,
                                (next, target),
                                (1int, state.instruction_index),
                            );
                            assert(open_states@ == mid.push((next, target)));
                            osrc = osrc.push((2int, state.instruction_index)).push((1int, state.instruction_index));
                            lemma_node_reaches_step(sels, condition_holds, pts_old, node@, starts, state, target, jumped);
                            lemma_node_reaches_step(sels, condition_holds, pts_old, node@, starts, state, target, next);
                            assert(open_states@[open_states@.len() - 2].0 == jumped);
                            assert(open_states@[open_states@.len() - 1].0 == next);
                            assert(open_states@.subrange(0, popped.len() as int) =~= popped);
                        }
                    },
                    FlatSelectorSegment::Jump(next_state) => {
                        let jumped = state.jump(*next_state);
                        open_states.push((jumped, target));
                        proof {
                            lemma_sources_push(
                                sels,
                                starts,
                                rows(visited@),
                                popped,
                                osrc,
                                matched_rules@,
                                msrc,
                                self.matched_points(),
                                node@,
                                (jumped, target),
                                (2int, state.instruction_index),
                            );
                            osrc = osrc.push((2int, state.instruction_index));
                            lemma_node_reaches_step(sels, condition_holds, pts_old, node@, starts, state, target, jumped);
                            assert(open_states@[open_states@.len() - 1].0 == jumped);
                            assert(open_states@.subrange(0, popped.len() as int) =~= popped);
                        }
                    },
                }
                proof {
                    // What the visited state is bound to lead to is now taken care of
                    assert forall|t: SelectorState|
                        #[trigger] bound_transition(sels, condition_holds, pts_old, node@, state, t) implies exists|x: int|
                            0 <= x < open_states@.len() && (#[trigger] open_states@[x]).0 == t by {
                        let last = open_states@.len() - 1;
                        match sels[state.rule_index as int].path@[state.instruction_index as int] {
                            FlatSelectorSegment::Branch(_) => {
                                if t.instruction_index == state.instruction_index + 1 {
                                    assert(open_states@[last].0 == t);
                                } else {
                                    assert(open_states@[last - 1].0 == t);
                                }
                            },
                            _ => {
                                assert(open_states@[last].0 == t);
                            },
                        }
                    }
                }
            }
            proof {
                let now_rows = rows(visited@);
                assert(now_rows.len() == pre_rows.len());
                assert forall|r: int| 0 <= r < pre_rows.len() implies (#[trigger] pre_rows[r]).len() == now_rows[r].len() by {}
                assert forall|r: int, i: int| 0 <= r < pre_rows.len() && 0 <= i < pre_rows[r].len() && #[trigger] pre_rows[r][i]
                    implies now_rows[r][i] by {}
                assert forall|x: int| 0 <= x < pre_open.len() - 1 implies open_states@[x] == pre_open[x] by {
                    assert(popped[x] == pre_open[x]);
                    assert(open_states@.subrange(0, popped.len() as int)[x] == open_states@[x]);
                }
                assert forall|q: int| 0 <= q < pre_matched.len() implies matched_rules@[q] == pre_matched[q] by {}
                // The visited state itself is taken care of
                if state.instruction_index >= sels[state.rule_index as int].path@.len() {
                    assert(matched_rules@[matched_rules@.len() - 1].0 == state.rule_index);
                } else {
                    assert(visited_in(now_rows, state));
                }
                assert(handled(sels, now_rows, open_states@, matched_rules@, state));
                assert forall|q: int| 0 <= q < starts.len() implies handled(
                    sels,
                    rows(visited@),
                    open_states@,
                    matched_rules@,
                    #[trigger] starts[q],
                ) by {
                    lemma_handled_grows(sels, pre_rows, pre_open, pre_matched, now_rows, open_states@, matched_rules@, starts[q]);
                }
                assert forall|v: SelectorState, t: SelectorState|
                    #[trigger] bound_transition(sels, condition_holds, pts_old, node@, v, t) && visited_in(
                        rows(visited@),
                        v,
                    ) implies handled(sels, rows(visited@), open_states@, matched_rules@, t) by {
                    if visited_in(pre_rows, v) {
                        lemma_handled_grows(sels, pre_rows, pre_open, pre_matched, now_rows, open_states@, matched_rules@, t);
                    } else {
                        assert(v == state);
                    }
                }
                assert forall|v: SelectorState|
                    #[trigger] visited_in(rows(visited@), v) && v.rule_index < n && v.instruction_index
                        < sels[v.rule_index as int].path@.len() && sels[v.rule_index as int].path@[v.instruction_index as int]
                        is MatchEdge && !node_reaches(sels, condition_holds, pts_old, node@, starts, v, SelectionCaret::PrecedingEdge)
                        implies output_states@.contains(v) by {
                    if visited_in(pre_rows, v) {
                        let x = choose|x: int| 0 <= x < pre_out.len() && pre_out[x] == v;
                        assert(output_states@[x] == pre_out[x]);
                    } else {
                        assert(v == state);
                        assert(output_states@[output_states@.len() - 1] == state);
                    }
                }
                assert(self.matched_points().take(pre_points.len() as int) =~= pre_points);
                assert forall|v: SelectorState|
                    #[trigger] visited_in(rows(visited@), v) && v.rule_index < n && v.instruction_index
                        < sels[v.rule_index as int].path@.len() && sels[v.rule_index as int].path@[v.instruction_index as int]
                        is MatchNode implies self.matched_points().contains((node@, v)) by {
                    if visited_in(pre_rows, v) {
                        assert(pre_points.contains((node@, v)));
                        let y = choose|y: int| 0 <= y < pre_points.len() && pre_points[y] == (node@, v);
                        assert(self.matched_points().take(pre_points.len() as int)[y] == self.matched_points()[y]);
                    } else {
                        assert(v == state);
                    }
                }
            }
        }
        proof {
            assert(open_states@ =~= Seq::<(SelectorState, SelectionCaret)>::empty());
            lemma_sources_result(sels, starts, rows(visited@), open_states@, osrc, matched_rules@, msrc, self.matched_points(), node@);
            let vis = rows(visited@);
            assert forall|s: SelectorState|
                s.rule_index < sels.len() && s.instruction_index >= sels[s.rule_index as int].path@.len()
                    && #[trigger] bound_reaches(sels, condition_holds, pts_old, node@, starts, s) implies exists|q: int|
                    0 <= q < matched_rules@.len() && (#[trigger] matched_rules@[q]).0 == s.rule_index by {
                let run = choose|run: Seq<SelectorState>|
                    #[trigger] is_bound_run(sels, condition_holds, pts_old, node@, run) && starts.contains(run[0])
                        && run.last() == s;
                lemma_bound_closed(sels, condition_holds, pts_old, node@, starts, vis, matched_rules@, run);
            }
            assert forall|s: SelectorState|
                #[trigger] bound_reaches(sels, condition_holds, pts_old, node@, starts, s) && s.rule_index < sels.len()
                    && s.instruction_index < sels[s.rule_index as int].path@.len()
                    && sels[s.rule_index as int].path@[s.instruction_index as int] is MatchEdge && !node_reaches(
                    sels,
                    condition_holds,
                    pts_old, node@,
                    starts,
                    s,
                    SelectionCaret::PrecedingEdge,
                ) implies output_states@.contains(s) by {
                let run = choose|run: Seq<SelectorState>|
                    #[trigger] is_bound_run(sels, condition_holds, pts_old, node@, run) && starts.contains(run[0])
                        && run.last() == s;
                lemma_bound_closed(sels, condition_holds, pts_old, node@, starts, vis, matched_rules@, run);
                assert(visited_in(vis, s));
            }
            assert forall|s: SelectorState|
                #[trigger] bound_reaches(sels, condition_holds, pts_old, node@, starts, s) && s.rule_index < sels.len()
                    && s.instruction_index < sels[s.rule_index as int].path@.len()
                    && sels[s.rule_index as int].path@[s.instruction_index as int] is MatchNode implies self.matched_points().contains(
                    (node@, s),
                ) by {
                let run = choose|run: Seq<SelectorState>|
                    #[trigger] is_bound_run(sels, condition_holds, pts_old, node@, run) && starts.contains(run[0])
                        && run.last() == s;
                lemma_bound_closed(sels, condition_holds, pts_old, node@, starts, vis, matched_rules@, run);
                assert(visited_in(vis, s));
            }
        }
        self.stack.push(ResolveFrame { active_states: output_states });
        proof {
            assert(matches_have_sources(sels, starts, self.matched_points(), node@, matched_rules@, msrc));
            assert(self.frames().drop_last() =~= old(self).frames().drop_last());
            assert(self.frames().last() == output_states@);
            assert forall|x: int| 0 <= x < self.stack@.len() implies states_in_range(
                (#[trigger] self.stack@[x]).active_states@,
                self.selectors.0@.len() as int,
            ) by {
                if x < rest.len() {
                    assert(self.stack@[x] == rest[x]);
                }
            }
        }
        matched_rules
    }
}

/// True if a selector ends by matching the node, and none of its branches
/// or jumps leads past its end: the end can only be reached by matching the
/// node at its last instruction.
pub open spec fn ends_in_node_match(path: Seq<FlatSelectorSegment>) -> bool {
    &&& path.len() >= 1
    &&& path.last() is MatchNode
    &&& forall|k: int|
        0 <= k < path.len() ==> match #[trigger] path[k] {
            FlatSelectorSegment::Branch(n) => n < path.len(),
            FlatSelectorSegment::Jump(n) => n < path.len(),
            _ => true,
        }
}

/// Transitions that take no edge stay within one selector.
proof fn lemma_run_keeps_rule<V, F: Fn(&Expression) -> bool>(
    sels: Seq<FlatSelector>,
    condition_holds: F,
    matched: Seq<(V, SelectorState)>,
    node: V,
    run: Seq<SelectorState>,
    j: int,
)
    requires
        is_node_run(sels, condition_holds, matched, node, run),
        0 <= j < run.len(),
    ensures
        run[j].rule_index == run[0].rule_index,
    decreases j,
{
    if j > 0 {
        lemma_run_keeps_rule(sels, condition_holds, matched, node, run, j - 1);
        assert(node_transition(sels, condition_holds, matched, node, run[j - 1], run[j - 1 + 1]));
    }
}

/// A run that starts before the end of a selector and ends past it crosses
/// the end by some transition.
proof fn lemma_run_crosses_end<V, F: Fn(&Expression) -> bool>(
    sels: Seq<FlatSelector>,
    condition_holds: F,
    matched: Seq<(V, SelectorState)>,
    node: V,
    run: Seq<SelectorState>,
    len: int,
) -> (j: int)
    requires
        is_node_run(sels, condition_holds, matched, node, run),
        run[0].instruction_index < len,
        run.last().instruction_index >= len,
    ensures
        1 <= j < run.len(),
        run[j - 1].instruction_index < len,
        run[j].instruction_index >= len,
        node_transition(sels, condition_holds, matched, node, run[j - 1], run[j]),
    decreases run.len(),
{
    let l = run.len() - 1;
    if run[l - 1].instruction_index < len {
        assert(node_transition(sels, condition_holds, matched, node, run[l - 1], run[l - 1 + 1]));
        l
    } else {
        let prefix = run.drop_last();
        assert forall|i: int| 0 <= i < prefix.len() - 1 implies #[trigger] node_transition(
            sels,
            condition_holds,
            matched,
            node,
            prefix[i],
            prefix[i + 1],
        ) by {
            assert(prefix[i] == run[i] && prefix[i + 1] == run[i + 1]);
            assert(node_transition(sels, condition_holds, matched, node, run[i], run[i + 1]));
        }
        assert(prefix[0] == run[0]);
        let j = lemma_run_crosses_end(sels, condition_holds, matched, node, prefix, len);
        assert(prefix[j - 1] == run[j - 1] && prefix[j] == run[j]);
        j
    }
}

/// Once a node has matched the last instruction of a selector that ends in
/// a node match, the selector can no longer reach its end over that node
/// from states before its end: a later resolution of the node does not
/// return the rule again.
pub proof fn lemma_end_reached_once<V, F: Fn(&Expression) -> bool>(
    sels: Seq<FlatSelector>,
    condition_holds: F,
    matched: Seq<(V, SelectorState)>,
    node: V,
    starts: Seq<SelectorState>,
    rule: usize,
    caret: SelectionCaret,
)
    requires
        rule < sels.len(),
        ends_in_node_match(sels[rule as int].path@),
        forall|k: int|
            0 <= k < starts.len() && (#[trigger] starts[k]).rule_index == rule ==> starts[k].instruction_index
                < sels[rule as int].path@.len(),
        matched.contains(
            (node, SelectorState { rule_index: rule, instruction_index: (sels[rule as int].path@.len() - 1) as usize }),
        ),
    ensures
        !node_reaches_end(sels, condition_holds, matched, node, starts, (rule, caret)),
{
    let path = sels[rule as int].path@;
    let len = path.len() as int;
    if node_reaches_end(sels, condition_holds, matched, node, starts, (rule, caret)) {
        let i = choose|i: usize|
            i >= path.len() && #[trigger] node_reaches(
                sels,
                condition_holds,
                matched,
                node,
                starts,
                SelectorState { rule_index: rule, instruction_index: i },
                caret,
            );
        let e = SelectorState { rule_index: rule, instruction_index: i };
        let run = choose|run: Seq<SelectorState>|
            #[trigger] is_node_run(sels, condition_holds, matched, node, run) && starts.contains(run[0])
                && run.last() == e && run_commits(sels, run) == (caret == SelectionCaret::Node);
        lemma_run_keeps_rule(sels, condition_holds, matched, node, run, run.len() - 1);
        let k = choose|k: int| 0 <= k < starts.len() && starts[k] == run[0];
        assert(starts[k].rule_index == rule);
        let j = lemma_run_crosses_end(sels, condition_holds, matched, node, run, len);
        lemma_run_keeps_rule(sels, condition_holds, matched, node, run, j - 1);
        let p = run[j - 1];
        assert(p.rule_index == rule);
        match path[p.instruction_index as int] {
            FlatSelectorSegment::Branch(n) => {
                assert(n < len);
            },
            FlatSelectorSegment::Jump(n) => {
                assert(n < len);
            },
            _ => {},
        }
        assert(p.instruction_index == len - 1);
        assert(p == SelectorState { rule_index: rule, instruction_index: (len - 1) as usize });
    }
}

/// In one resolution, a selector that ends in a node match and has no start
/// at its end is returned at most once.
pub proof fn lemma_returned_once<V>(
    sels: Seq<FlatSelector>,
    starts: Seq<SelectorState>,
    points: Seq<(V, SelectorState)>,
    node: V,
    r: Seq<(usize, SelectionCaret)>,
    srcs: Seq<(int, usize)>,
    a: int,
    b: int,
)
    requires
        matches_have_sources(sels, starts, points, node, r, srcs),
        0 <= a < r.len(),
        0 <= b < r.len(),
        r[a].0 == r[b].0,
        r[a].0 < sels.len(),
        ends_in_node_match(sels[r[a].0 as int].path@),
        forall|k: int|
            0 <= k < starts.len() && (#[trigger] starts[k]).rule_index == r[a].0 ==> starts[k].instruction_index
                < sels[r[a].0 as int].path@.len(),
    ensures
        a == b,
{
    let path = sels[r[a].0 as int].path@;
    assert(end_source(sels, starts, r[a].0, srcs[a]));
    assert(end_source(sels, starts, r[b].0, srcs[b]));
    if srcs[a].0 == 0 {
        assert(starts[srcs[a].1 as int].rule_index == r[a].0);
    }
    if srcs[b].0 == 0 {
        assert(starts[srcs[b].1 as int].rule_index == r[a].0);
    }
    if srcs[a].0 == 2 {
        assert(match path[srcs[a].1 as int] {
            FlatSelectorSegment::Branch(n) => n < path.len(),
            FlatSelectorSegment::Jump(n) => n < path.len(),
            _ => true,
        });
    }
    if srcs[b].0 == 2 {
        assert(match path[srcs[b].1 as int] {
            FlatSelectorSegment::Branch(n) => n < path.len(),
            FlatSelectorSegment::Jump(n) => n < path.len(),
            _ => true,
        });
    }
    if a != b {
        assert((r[a].0, srcs[a]) != (r[b].0, srcs[b]));
    }
}

/// Over the whole life of a resolver, each node matches each node-matching
/// instruction at most once: no pair of a node and such an instruction is
/// recorded twice.
pub proof fn lemma_points_match_once<'a, T: NodeId>(resolver: &SelectorResolver<'a, T>, i: int, j: int)
    requires
        resolver.wf(),
        0 <= i < resolver.matched_points().len(),
        0 <= j < resolver.matched_points().len(),
        i != j,
    ensures
        resolver.matched_points()[i] != resolver.matched_points()[j],
{

}

/// The first state of every selector of a stylesheet.
fn all_starting_states(selectors: &CascadeSelector) -> (r: Vec<SelectorState>)
    ensures
        r@.len() == selectors.0@.len(),
        forall|i: int|
            0 <= i < selectors.0@.len() ==> (#[trigger] r@[i]).rule_index == i && r@[i].instruction_index
                == 0,
{
    let mut states: Vec<SelectorState> = Vec::new();
    let mut i: usize = 0;
    while i < selectors.0.len()
        invariant
            i <= selectors.0@.len(),
            states@.len() == i,
            forall|j: int|
                0 <= j < i ==> (#[trigger] states@[j]).rule_index == j && states@[j].instruction_index == 0,
        decreases selectors.0@.len() - i,
    {
        states.push(SelectorState { rule_index: i, instruction_index: 0 });
        i += 1;
    }
    states
}

} // verus!
