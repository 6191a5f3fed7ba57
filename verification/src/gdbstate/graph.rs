//! The state graph of a program under GDB, and the steps that build and
//! update it between the commands sent to GDB.
//!
//! Variable nodes are kept by the name of their variable object; each name
//! occurs at most once.

use super::construct::{
    ContainerKind, group_local_names, lex_lt, local_names, occurrences, parse_node_value, preprocess_type_name,
    spec_node_value, spec_preprocess_type,
};
use super::state::{
    GdbStateNode, GdbStateNodeForVariable, GdbStateNodeId, SpecNodeId, edges_view,
    first_edge_index, first_target_index,
};
use crate::gdbmi::types::{LocalVariable, StackFrame, VariableObject, VariableObjectData};
use crate::model::state::{EdgeLabel, NodeTypeClass, NodeValue, SpecEdgeLabel};
use crate::text::{parse_usize, spec_parse_unsigned, str_eq};
use std::collections::BTreeMap;
use vstd::prelude::*;
use vstd::std_specs::btree::spec_keys_iter;
use vstd::std_specs::iter::IteratorSpec;

verus! {

/// Implementation of a program state graph backed by a GDB session.
#[derive(Debug)]
pub struct GdbStateGraph {
    root_node: GdbStateNode,
    stack_trace: Vec<GdbStateNode>,
    variables: Vec<(VariableObject, GdbStateNodeForVariable)>,
    length_nodes: Vec<(VariableObject, GdbStateNode)>,
    address_mapping: BTreeMap<u64, VariableObject>,
}

/// Index of the entry whose key is `key`, if any.
pub open spec fn key_position<T>(entries: Seq<(VariableObject, T)>, key: Seq<char>) -> Option<int> {
    if exists|i: int| 0 <= i < entries.len() && (#[trigger] entries[i]).0.0@ == key {
        Some(choose|i: int| 0 <= i < entries.len() && (#[trigger] entries[i]).0.0@ == key)
    } else {
        None
    }
}

/// The elements of `s` that `drop` does not take, in order.
pub open spec fn kept<A>(s: Seq<A>, drop: spec_fn(A) -> bool) -> Seq<A>
    decreases s.len(),
{
    if s.len() == 0 {
        seq![]
    } else {
        kept(s.drop_last(), drop) + if drop(s.last()) {
            seq![]
        } else {
            seq![s.last()]
        }
    }
}

/// True for a dereference edge that leads to a variable node whose name is
/// not among `names`.
pub open spec fn dangles(names: Set<Seq<char>>) -> spec_fn((EdgeLabel, GdbStateNodeId)) -> bool {
    |e: (EdgeLabel, GdbStateNodeId)| e.0 is Deref && (e.1 matches GdbStateNodeId::VarObject(x) && !names.contains(x.0@))
}

/// The address entries whose variable node's name is among `names`.
pub open spec fn live_addresses(entries: Map<u64, VariableObject>, names: Set<Seq<char>>) -> Map<u64, VariableObject> {
    entries.restrict(entries.dom().filter(|a: u64| names.contains(entries[a].0@)))
}

/// Removing an element that is dropped anyway keeps what is kept.
proof fn lemma_kept_remove<A>(s: Seq<A>, drop: spec_fn(A) -> bool, i: int)
    requires
        0 <= i < s.len(),
        drop(s[i]),
    ensures
        kept(s.remove(i), drop) == kept(s, drop),
    decreases s.len(),
{
    if i == s.len() - 1 {
        assert(s.remove(i) =~= s.drop_last());
        assert(kept(s, drop) =~= kept(s.drop_last(), drop));
    } else {
        let r = s.remove(i);
        assert(r.drop_last() =~= s.drop_last().remove(i));
        assert(r.last() == s.last());
        lemma_kept_remove(s.drop_last(), drop, i);
    }
}

/// Where nothing is dropped, everything is kept.
proof fn lemma_kept_none<A>(s: Seq<A>, drop: spec_fn(A) -> bool)
    requires
        forall|j: int| 0 <= j < s.len() ==> !drop(#[trigger] s[j]),
    ensures
        kept(s, drop) == s,
    decreases s.len(),
{
    if s.len() > 0 {
        lemma_kept_none(s.drop_last(), drop);
        assert(kept(s, drop) =~= s.drop_last().push(s.last()));
        assert(s.drop_last().push(s.last()) =~= s);
    }
}

/// Two entry sequences with the same keys at each place find each key at the same place.
proof fn lemma_same_keys_same_positions<T, U>(a: Seq<(VariableObject, T)>, b: Seq<(VariableObject, U)>, k: Seq<char>)
    requires
        a.len() == b.len(),
        forall|j: int| 0 <= j < a.len() ==> (#[trigger] a[j]).0 == b[j].0,
        keys_unique(a),
        keys_unique(b),
    ensures
        key_position(a, k) == key_position(b, k),
{
    if exists|i: int| 0 <= i < a.len() && (#[trigger] a[i]).0.0@ == k {
        let i = choose|i: int| 0 <= i < a.len() && (#[trigger] a[i]).0.0@ == k;
        lemma_key_position_unique(a, i);
        assert(b[i].0 == a[i].0);
        lemma_key_position_unique(b, i);
    } else {
        assert forall|i: int| 0 <= i < b.len() implies (#[trigger] b[i]).0.0@ != k by {
            assert(a[i].0 == b[i].0);
        }
    }
}

/// True if one of `names` is `name`.
fn names_contain(names: &Vec<String>, name: &str) -> (r: bool)
    ensures
        r == exists|j: int| 0 <= j < names@.len() && (#[trigger] names@[j])@ == name@,
{
    let mut j: usize = 0;
    while j < names.len()
        invariant
            j <= names@.len(),
            forall|q: int| 0 <= q < j ==> (#[trigger] names@[q])@ != name@,
        decreases names@.len() - j,
    {
        if str_eq(names[j].as_str(), name) {
            return true;
        }
        j += 1;
    }
    false
}

/// Drops the dereference edges whose target is missing from the variables
/// named by `names`.
fn drop_dangling_edges(
    succ: &mut Vec<(EdgeLabel, GdbStateNodeId)>,
    names: &Vec<String>,
    Ghost(vars): Ghost<Map<Seq<char>, GdbStateNodeForVariable>>,
)
    requires
        forall|x: Seq<char>| vars.contains_key(x) <==> exists|j: int| 0 <= j < names@.len() && (#[trigger] names@[j])@ == x,
    ensures
        final(succ)@ == kept(old(succ)@, dangles(vars.dom())),
{
    let ghost d = dangles(vars.dom());
    let mut i: usize = 0;
    while i < succ.len()
        invariant
            forall|x: Seq<char>| vars.contains_key(x) <==> exists|j: int| 0 <= j < names@.len() && (#[trigger] names@[j])@ == x,
            d == dangles(vars.dom()),
            i <= succ@.len(),
            kept(succ@, d) == kept(old(succ)@, d),
            forall|j: int| 0 <= j < i ==> !d(#[trigger] succ@[j]),
        decreases succ@.len() - i, succ@.len(),
    {
        let drop = match (&succ[i].0, &succ[i].1) {
            (EdgeLabel::Deref, GdbStateNodeId::VarObject(x)) => !names_contain(names, x.0.as_str()),
            _ => false,
        };
        if drop {
            proof {
                lemma_kept_remove(succ@, d, i as int);
            }
            let ghost before = succ@;
            succ.remove(i);
            assert forall|j: int| 0 <= j < i implies !d(#[trigger] succ@[j]) by {
                assert(succ@[j] == before[j]);
            }
        } else {
            i += 1;
        }
    }
    proof {
        lemma_kept_none(succ@, d);
    }
}

/// True if no two entries have the same key.
pub open spec fn keys_unique<T>(entries: Seq<(VariableObject, T)>) -> bool {
    forall|i: int, j: int|
        0 <= i < entries.len() && 0 <= j < entries.len() && i != j ==> (#[trigger] entries[i]).0.0@
            != (#[trigger] entries[j]).0.0@
}

/// What building the node of a variable object with children goes on with.
#[derive(Clone, Copy, PartialEq, Eq, Debug, Structural)]
pub enum NonAtomPlan {
    /// The node has a value, so it is a pointer to this nonzero address.
    Pointer(u64),
    /// The node is a pointer whose target is not shown: its value is not an
    /// address, or the address is zero.
    NoTarget,
    /// The node has no value: its children must be listed.
    Children,
}

/// The first frame index from `i` on where the cached frames (from the
/// bottom) and the new frames (listed from the top) name different
/// functions, or the size of the shorter trace.
pub open spec fn first_mismatch(cached: Seq<GdbStateNode>, fresh: Seq<StackFrame>, i: int) -> int
    decreases (if cached.len() < fresh.len() { cached.len() as int } else { fresh.len() as int }) - i,
{
    let m = if cached.len() < fresh.len() { cached.len() as int } else { fresh.len() as int };
    if i >= m {
        m
    } else if !(cached[i].type_string matches Some(t) && t@ == fresh[fresh.len() - 1 - i].func@) {
        i
    } else {
        first_mismatch(cached, fresh, i + 1)
    }
}

/// True if the cached frame at index `j` (counted from the bottom) runs the
/// function that GDB lists at the same height: the `j`-th frame counted from
/// the bottom of the new trace, which GDB lists from the top.
pub open spec fn frame_still_runs(cached: Seq<GdbStateNode>, fresh: Seq<StackFrame>, j: int) -> bool {
    &&& 0 <= j < cached.len()
    &&& 0 <= j < fresh.len()
    &&& cached[j].type_string matches Some(name) && name@ == fresh[fresh.len() - 1 - j].func@
}

/// The first changed frame is the lowest frame that no longer runs the same
/// function: every frame below it still does, and it does not unless it is
/// past the shorter of the two traces, where the count stops.
pub proof fn lemma_first_changed_frame_is_lowest_change(cached: Seq<GdbStateNode>, fresh: Seq<StackFrame>)
    ensures
        0 <= first_mismatch(cached, fresh, 0),
        first_mismatch(cached, fresh, 0) <= cached.len(),
        first_mismatch(cached, fresh, 0) <= fresh.len(),
        forall|j: int| 0 <= j < first_mismatch(cached, fresh, 0) ==> #[trigger] frame_still_runs(cached, fresh, j),
        first_mismatch(cached, fresh, 0) < cached.len() && first_mismatch(cached, fresh, 0) < fresh.len()
            ==> !frame_still_runs(cached, fresh, first_mismatch(cached, fresh, 0)),
{
    lemma_first_mismatch_from(cached, fresh, 0);
}

proof fn lemma_first_mismatch_from(cached: Seq<GdbStateNode>, fresh: Seq<StackFrame>, i: int)
    requires
        0 <= i,
        i <= cached.len(),
        i <= fresh.len(),
    ensures
        i <= first_mismatch(cached, fresh, i),
        first_mismatch(cached, fresh, i) <= cached.len(),
        first_mismatch(cached, fresh, i) <= fresh.len(),
        forall|j: int| i <= j < first_mismatch(cached, fresh, i) ==> #[trigger] frame_still_runs(cached, fresh, j),
        first_mismatch(cached, fresh, i) < cached.len() && first_mismatch(cached, fresh, i) < fresh.len()
            ==> !frame_still_runs(cached, fresh, first_mismatch(cached, fresh, i)),
    decreases cached.len() + fresh.len() - 2 * i,
{
    let m = if cached.len() < fresh.len() { cached.len() as int } else { fresh.len() as int };
    if i < m {
        let same = cached[i].type_string matches Some(t) && t@ == fresh[fresh.len() - 1 - i].func@;
        if same {
            assert(frame_still_runs(cached, fresh, i));
            lemma_first_mismatch_from(cached, fresh, i + 1);
        }
    }
}

/// When GDB lists the same functions again (from the top) as the cached
/// frames name (from the bottom), no frame has changed: updating the stack
/// keeps every frame.
pub proof fn lemma_unchanged_stack_is_kept(cached: Seq<GdbStateNode>, fresh: Seq<StackFrame>, i: int)
    requires
        0 <= i <= cached.len(),
        cached.len() == fresh.len(),
        forall|j: int|
            0 <= j < cached.len() ==> ((#[trigger] cached[j]).type_string matches Some(t) && t@ == fresh[fresh.len()
                - 1 - j].func@),
    ensures
        first_mismatch(cached, fresh, i) == cached.len(),
    decreases cached.len() - i,
{
    if i < cached.len() {
        assert(cached[i].type_string matches Some(t) && t@ == fresh[fresh.len() - 1 - i].func@);
        lemma_unchanged_stack_is_kept(cached, fresh, i + 1);
    }
}

proof fn lemma_first_mismatch_bound(cached: Seq<GdbStateNode>, fresh: Seq<StackFrame>, i: int)
    requires
        0 <= i,
    ensures
        first_mismatch(cached, fresh, i) <= cached.len(),
        first_mismatch(cached, fresh, i) <= fresh.len(),
    decreases (if cached.len() < fresh.len() { cached.len() as int } else { fresh.len() as int }) - i,
{
    let m = if cached.len() < fresh.len() { cached.len() as int } else { fresh.len() as int };
    if i < m {
        lemma_first_mismatch_bound(cached, fresh, i + 1);
    }
}

/// True for the edges along which the subtree of a variable continues:
/// members, array items and the array length.
pub open spec fn is_tree_edge(l: SpecEdgeLabel) -> bool {
    l is Named || l is Index || l is Length
}

/// True if every node that is gone from `vars` and `lengths` (which hold
/// part of `old_vars` and `old_lengths`) belongs to the subtree of `h`.
#[verifier::opaque]
pub open spec fn removal_sound(
    old_vars: Map<Seq<char>, GdbStateNodeForVariable>,
    old_lengths: Map<Seq<char>, GdbStateNode>,
    vars: Map<Seq<char>, GdbStateNodeForVariable>,
    lengths: Map<Seq<char>, GdbStateNode>,
    h: Seq<char>,
) -> bool {
    &&& forall|k: Seq<char>| old_vars.contains_key(k) && !#[trigger] vars.contains_key(k) ==> in_subtree(old_vars, h, k)
    &&& forall|v: Seq<char>|
        old_lengths.contains_key(v) && !#[trigger] lengths.contains_key(v) ==> length_in_subtree(old_vars, h, v)
}

/// True if every variable node but `h` that is gone from `vars` took along
/// the nodes that its member, item and length edges lead to.
#[verifier::opaque]
pub open spec fn removal_closed(
    old_vars: Map<Seq<char>, GdbStateNodeForVariable>,
    vars: Map<Seq<char>, GdbStateNodeForVariable>,
    lengths: Map<Seq<char>, GdbStateNode>,
    h: Seq<char>,
) -> bool {
    &&& forall|k: Seq<char>, c: Seq<char>|
        old_vars.contains_key(k) && !vars.contains_key(k) && k != h && #[trigger] tree_child(
            old_vars[k].node,
            SpecNodeId::VarObject(c),
        ) ==> !#[trigger] vars.contains_key(c)
    &&& forall|k: Seq<char>, v: Seq<char>|
        old_vars.contains_key(k) && !vars.contains_key(k) && k != h && #[trigger] tree_child(
            old_vars[k].node,
            SpecNodeId::Length(v),
        ) ==> !#[trigger] lengths.contains_key(v)
}

/// True if `part` holds some of the entries of `all`, unchanged.
pub open spec fn sub_map<V>(part: Map<Seq<char>, V>, all: Map<Seq<char>, V>) -> bool {
    forall|k: Seq<char>| #[trigger] part.contains_key(k) ==> all.contains_key(k) && part[k] == all[k]
}

/// True if the node has a member, item or length edge to `c`.
pub open spec fn tree_child(n: GdbStateNode, c: SpecNodeId) -> bool {
    exists|i: int|
        0 <= i < n.successors@.len() && is_tree_edge(edges_view(n.successors@)[i].0) && #[trigger] edges_view(
            n.successors@,
        )[i].1 == c
}

/// The labels of a path, as values.
pub open spec fn labels_view(path: Seq<EdgeLabel>) -> Seq<SpecEdgeLabel> {
    path.map_values(|e: EdgeLabel| e@)
}

/// True if `p` names variable nodes, each one reached from the one before
/// along a member, item or length edge.
pub open spec fn is_tree_path(vars: Map<Seq<char>, GdbStateNodeForVariable>, p: Seq<Seq<char>>) -> bool {
    &&& p.len() >= 1
    &&& forall|i: int| 0 <= i < p.len() ==> vars.contains_key(#[trigger] p[i])
    &&& forall|i: int| 0 < i < p.len() ==> tree_child(vars[p[i - 1]].node, SpecNodeId::VarObject(#[trigger] p[i]))
}

/// True if the variable node `k` is in the subtree of the variable node
/// `root`: the nodes that member, item and length edges lead to, repeatedly.
#[verifier::opaque]
pub open spec fn in_subtree(vars: Map<Seq<char>, GdbStateNodeForVariable>, root: Seq<char>, k: Seq<char>) -> bool {
    exists|p: Seq<Seq<char>>| #[trigger] is_tree_path(vars, p) && p[0] == root && p.last() == k
}

/// True if the length node `v` hangs from a node in the subtree of `root`.
#[verifier::opaque]
pub open spec fn length_in_subtree(vars: Map<Seq<char>, GdbStateNodeForVariable>, root: Seq<char>, v: Seq<char>) -> bool {
    exists|k: Seq<char>| #[trigger] in_subtree(vars, root, k) && tree_child(vars[k].node, SpecNodeId::Length(v))
}

/// A path in a part of the nodes is a path in all of them; from a node that
/// has an edge to its start, it can be made longer at the front.
proof fn lemma_path_lift(
    part: Map<Seq<char>, GdbStateNodeForVariable>,
    all: Map<Seq<char>, GdbStateNodeForVariable>,
    root: Seq<char>,
    p: Seq<Seq<char>>,
)
    requires
        forall|k: Seq<char>| #[trigger] part.contains_key(k) ==> all.contains_key(k) && part[k] == all[k],
        is_tree_path(part, p),
        all.contains_key(root),
        tree_child(all[root].node, SpecNodeId::VarObject(p[0])),
    ensures
        is_tree_path(all, seq![root] + p),
{
    let q = seq![root] + p;
    assert forall|i: int| 0 <= i < q.len() implies all.contains_key(#[trigger] q[i]) by {
        if i > 0 {
            assert(q[i] == p[i - 1]);
            assert(part.contains_key(p[i - 1]));
        }
    }
    assert forall|i: int| 0 < i < q.len() implies tree_child(all[q[i - 1]].node, SpecNodeId::VarObject(#[trigger] q[i])) by {
        if i > 1 {
            assert(q[i - 1] == p[i - 2]);
            assert(q[i] == p[i - 1]);
            assert(part.contains_key(p[i - 2]));
        }
    }
}

/// Where removal is closed under member, item and length edges and took
/// the start of a path, it took the whole path.
proof fn lemma_removed_along_path(
    before: Map<Seq<char>, GdbStateNodeForVariable>,
    after: Map<Seq<char>, GdbStateNodeForVariable>,
    p: Seq<Seq<char>>,
    n: int,
)
    requires
        is_tree_path(before, p),
        !after.contains_key(p[0]),
        0 <= n < p.len(),
        forall|k: Seq<char>, c: Seq<char>|
            before.contains_key(k) && !after.contains_key(k) && #[trigger] tree_child(before[k].node, SpecNodeId::VarObject(c))
                ==> !#[trigger] after.contains_key(c),
    ensures
        !after.contains_key(p[n]),
    decreases n,
{
    if n > 0 {
        lemma_removed_along_path(before, after, p, n - 1);
        assert(before.contains_key(p[n - 1]));
        assert(tree_child(before[p[n - 1]].node, SpecNodeId::VarObject(p[n])));
    }
}

/// A path can be made longer at its end along an edge.
proof fn lemma_path_extend(vars: Map<Seq<char>, GdbStateNodeForVariable>, p: Seq<Seq<char>>, c: Seq<char>)
    requires
        is_tree_path(vars, p),
        vars.contains_key(c),
        tree_child(vars[p.last()].node, SpecNodeId::VarObject(c)),
    ensures
        is_tree_path(vars, p.push(c)),
        p.push(c)[0] == p[0],
        p.push(c).last() == c,
{
    let q = p.push(c);
    assert forall|i: int| 0 <= i < q.len() implies vars.contains_key(#[trigger] q[i]) by {
        if i < p.len() {
            assert(q[i] == p[i]);
        }
    }
    assert forall|i: int| 0 < i < q.len() implies tree_child(vars[q[i - 1]].node, SpecNodeId::VarObject(#[trigger] q[i])) by {
        if i < p.len() {
            assert(q[i] == p[i]);
            assert(q[i - 1] == p[i - 1]);
        } else {
            assert(q[i - 1] == p.last());
        }
    }
}

/// A variable node is in its own subtree.
proof fn lemma_subtree_root(vars: Map<Seq<char>, GdbStateNodeForVariable>, h: Seq<char>)
    requires
        vars.contains_key(h),
    ensures
        in_subtree(vars, h, h),
{
    reveal(in_subtree);
    let p = seq![h];
    assert(is_tree_path(vars, p));
}

/// What the removal of the subtree of `c` from `before` gives: the nodes of
/// that subtree, and the length nodes that hang from them, are gone.
pub open spec fn subtree_removed(
    before_vars: Map<Seq<char>, GdbStateNodeForVariable>,
    before_lengths: Map<Seq<char>, GdbStateNode>,
    after_vars: Map<Seq<char>, GdbStateNodeForVariable>,
    after_lengths: Map<Seq<char>, GdbStateNode>,
    c: Seq<char>,
) -> bool {
    &&& forall|k: Seq<char>| #[trigger]
        after_vars.contains_key(k) == (before_vars.contains_key(k) && !in_subtree(before_vars, c, k))
    &&& sub_map(after_vars, before_vars)
    &&& forall|v: Seq<char>| #[trigger]
        after_lengths.contains_key(v) == (before_lengths.contains_key(v) && !length_in_subtree(before_vars, c, v))
    &&& sub_map(after_lengths, before_lengths)
}

/// Each node of the subtree of a child `c` of `h` is in the subtree of `h`.
proof fn lemma_subtree_of_child(
    before_vars: Map<Seq<char>, GdbStateNodeForVariable>,
    old_vars: Map<Seq<char>, GdbStateNodeForVariable>,
    h: Seq<char>,
    c: Seq<char>,
    k: Seq<char>,
)
    requires
        sub_map(before_vars, old_vars),
        old_vars.contains_key(h),
        tree_child(old_vars[h].node, SpecNodeId::VarObject(c)),
        in_subtree(before_vars, c, k),
    ensures
        in_subtree(old_vars, h, k),
        before_vars.contains_key(k),
{
    reveal(in_subtree);
    let p = choose|p: Seq<Seq<char>>| #[trigger] is_tree_path(before_vars, p) && p[0] == c && p.last() == k;
    assert(before_vars.contains_key(p[p.len() - 1]));
    lemma_path_lift(before_vars, old_vars, h, p);
    let q = seq![h] + p;
    assert(q[0] == h && q.last() == k);
    assert(is_tree_path(old_vars, q));
}

/// Removing the subtree of a child `c` of `h` keeps the removal from `h` on
/// sound and closed.
proof fn lemma_subtree_removal_step(
    old_vars: Map<Seq<char>, GdbStateNodeForVariable>,
    old_lengths: Map<Seq<char>, GdbStateNode>,
    before_vars: Map<Seq<char>, GdbStateNodeForVariable>,
    before_lengths: Map<Seq<char>, GdbStateNode>,
    after_vars: Map<Seq<char>, GdbStateNodeForVariable>,
    after_lengths: Map<Seq<char>, GdbStateNode>,
    h: Seq<char>,
    c: Seq<char>,
)
    requires
        old_vars.contains_key(h),
        !before_vars.contains_key(h),
        sub_map(before_vars, old_vars),
        sub_map(before_lengths, old_lengths),
        removal_sound(old_vars, old_lengths, before_vars, before_lengths, h),
        removal_closed(old_vars, before_vars, before_lengths, h),
        tree_child(old_vars[h].node, SpecNodeId::VarObject(c)),
        subtree_removed(before_vars, before_lengths, after_vars, after_lengths, c),
    ensures
        sub_map(after_vars, old_vars),
        sub_map(after_lengths, old_lengths),
        !after_vars.contains_key(c),
        removal_sound(old_vars, old_lengths, after_vars, after_lengths, h),
        removal_closed(old_vars, after_vars, after_lengths, h),
{
    if before_vars.contains_key(c) {
        lemma_subtree_root(before_vars, c);
    }
    lemma_step_sound(old_vars, old_lengths, before_vars, before_lengths, after_vars, after_lengths, h, c);
    lemma_step_closed(old_vars, before_vars, before_lengths, after_vars, after_lengths, h, c);
}

proof fn lemma_step_sound(
    old_vars: Map<Seq<char>, GdbStateNodeForVariable>,
    old_lengths: Map<Seq<char>, GdbStateNode>,
    before_vars: Map<Seq<char>, GdbStateNodeForVariable>,
    before_lengths: Map<Seq<char>, GdbStateNode>,
    after_vars: Map<Seq<char>, GdbStateNodeForVariable>,
    after_lengths: Map<Seq<char>, GdbStateNode>,
    h: Seq<char>,
    c: Seq<char>,
)
    requires
        old_vars.contains_key(h),
        sub_map(before_vars, old_vars),
        sub_map(before_lengths, old_lengths),
        removal_sound(old_vars, old_lengths, before_vars, before_lengths, h),
        tree_child(old_vars[h].node, SpecNodeId::VarObject(c)),
        subtree_removed(before_vars, before_lengths, after_vars, after_lengths, c),
    ensures
        removal_sound(old_vars, old_lengths, after_vars, after_lengths, h),
{
    reveal(removal_sound);
    assert forall|k: Seq<char>| old_vars.contains_key(k) && !#[trigger] after_vars.contains_key(k) implies in_subtree(
        old_vars,
        h,
        k,
    ) by {
        if before_vars.contains_key(k) {
            lemma_subtree_of_child(before_vars, old_vars, h, c, k);
        }
    }
    assert forall|v: Seq<char>| old_lengths.contains_key(v) && !#[trigger] after_lengths.contains_key(v) implies length_in_subtree(
        old_vars,
        h,
        v,
    ) by {
        if before_lengths.contains_key(v) {
            reveal(length_in_subtree);
            let k = choose|k: Seq<char>| #[trigger] in_subtree(before_vars, c, k) && tree_child(
                before_vars[k].node,
                SpecNodeId::Length(v),
            );
            lemma_subtree_of_child(before_vars, old_vars, h, c, k);
            assert(old_vars[k] == before_vars[k]);
        }
    }
}

proof fn lemma_step_closed(
    old_vars: Map<Seq<char>, GdbStateNodeForVariable>,
    before_vars: Map<Seq<char>, GdbStateNodeForVariable>,
    before_lengths: Map<Seq<char>, GdbStateNode>,
    after_vars: Map<Seq<char>, GdbStateNodeForVariable>,
    after_lengths: Map<Seq<char>, GdbStateNode>,
    h: Seq<char>,
    c: Seq<char>,
)
    requires
        sub_map(before_vars, old_vars),
        removal_closed(old_vars, before_vars, before_lengths, h),
        subtree_removed(before_vars, before_lengths, after_vars, after_lengths, c),
    ensures
        removal_closed(old_vars, after_vars, after_lengths, h),
{
    reveal(removal_closed);
    assert forall|k: Seq<char>, c2: Seq<char>|
        old_vars.contains_key(k) && !after_vars.contains_key(k) && k != h && #[trigger] tree_child(
            old_vars[k].node,
            SpecNodeId::VarObject(c2),
        ) implies !#[trigger] after_vars.contains_key(c2) by {
        if before_vars.contains_key(k) && before_vars.contains_key(c2) {
            reveal(in_subtree);
            assert(in_subtree(before_vars, c, k));
            let p = choose|p: Seq<Seq<char>>| #[trigger] is_tree_path(before_vars, p) && p[0] == c && p.last() == k;
            assert(before_vars[k] == old_vars[k]);
            lemma_path_extend(before_vars, p, c2);
            assert(is_tree_path(before_vars, p.push(c2)));
            assert(in_subtree(before_vars, c, c2));
        }
    }
    assert forall|k: Seq<char>, v: Seq<char>|
        old_vars.contains_key(k) && !after_vars.contains_key(k) && k != h && #[trigger] tree_child(
            old_vars[k].node,
            SpecNodeId::Length(v),
        ) implies !#[trigger] after_lengths.contains_key(v) by {
        if before_vars.contains_key(k) && before_lengths.contains_key(v) {
            assert(before_vars[k] == old_vars[k]);
            assert(in_subtree(before_vars, c, k));
            reveal(length_in_subtree);
            assert(length_in_subtree(before_vars, c, v));
        }
    }
}

/// Removing the length node that `h` has an edge to keeps the removal from
/// `h` on sound and closed.
proof fn lemma_length_removal_step(
    old_vars: Map<Seq<char>, GdbStateNodeForVariable>,
    old_lengths: Map<Seq<char>, GdbStateNode>,
    vars: Map<Seq<char>, GdbStateNodeForVariable>,
    before_lengths: Map<Seq<char>, GdbStateNode>,
    after_lengths: Map<Seq<char>, GdbStateNode>,
    h: Seq<char>,
    v: Seq<char>,
)
    requires
        old_vars.contains_key(h),
        sub_map(before_lengths, old_lengths),
        removal_sound(old_vars, old_lengths, vars, before_lengths, h),
        removal_closed(old_vars, vars, before_lengths, h),
        tree_child(old_vars[h].node, SpecNodeId::Length(v)),
        after_lengths == before_lengths.remove(v),
    ensures
        sub_map(after_lengths, old_lengths),
        !after_lengths.contains_key(v),
        removal_sound(old_vars, old_lengths, vars, after_lengths, h),
        removal_closed(old_vars, vars, after_lengths, h),
{
    reveal(removal_sound);
    reveal(removal_closed);
    lemma_subtree_root(old_vars, h);
    assert(length_in_subtree(old_vars, h, v)) by {
        reveal(length_in_subtree);
    }
}

/// A removal from `h` on that is sound and closed, and took `h` with what its
/// edges lead to, took exactly the subtree of `h`.
#[verifier::rlimit(40)]
proof fn lemma_subtree_removal_done(
    old_vars: Map<Seq<char>, GdbStateNodeForVariable>,
    old_lengths: Map<Seq<char>, GdbStateNode>,
    vars: Map<Seq<char>, GdbStateNodeForVariable>,
    lengths: Map<Seq<char>, GdbStateNode>,
    h: Seq<char>,
)
    requires
        old_vars.contains_key(h),
        !vars.contains_key(h),
        sub_map(vars, old_vars),
        sub_map(lengths, old_lengths),
        removal_sound(old_vars, old_lengths, vars, lengths, h),
        removal_closed(old_vars, vars, lengths, h),
        forall|c: Seq<char>| #[trigger] tree_child(old_vars[h].node, SpecNodeId::VarObject(c)) ==> !vars.contains_key(c),
        forall|v: Seq<char>| #[trigger] tree_child(old_vars[h].node, SpecNodeId::Length(v)) ==> !lengths.contains_key(v),
    ensures
        forall|k: Seq<char>| #[trigger]
            vars.contains_key(k) == (old_vars.contains_key(k) && !in_subtree(old_vars, h, k)),
        forall|v: Seq<char>| #[trigger]
            lengths.contains_key(v) == (old_lengths.contains_key(v) && !length_in_subtree(old_vars, h, v)),
{
    reveal(removal_sound);
    reveal(removal_closed);
    reveal(in_subtree);
    reveal(length_in_subtree);
    assert forall|k: Seq<char>, c: Seq<char>|
        old_vars.contains_key(k) && !vars.contains_key(k) && #[trigger] tree_child(old_vars[k].node, SpecNodeId::VarObject(c))
            implies !#[trigger] vars.contains_key(c) by {
        if k == h {
        }
    }
    assert forall|k: Seq<char>| #[trigger] vars.contains_key(k) implies !in_subtree(old_vars, h, k) by {
        if in_subtree(old_vars, h, k) {
            let p = choose|p: Seq<Seq<char>>| #[trigger] is_tree_path(old_vars, p) && p[0] == h && p.last() == k;
            lemma_removed_along_path(old_vars, vars, p, p.len() - 1);
        }
    }
    assert forall|v: Seq<char>| #[trigger] lengths.contains_key(v) implies !length_in_subtree(old_vars, h, v) by {
        if length_in_subtree(old_vars, h, v) {
            let k = choose|k: Seq<char>| #[trigger] in_subtree(old_vars, h, k) && tree_child(
                old_vars[k].node,
                SpecNodeId::Length(v),
            );
            let p = choose|p: Seq<Seq<char>>| #[trigger] is_tree_path(old_vars, p) && p[0] == h && p.last() == k;
            lemma_removed_along_path(old_vars, vars, p, p.len() - 1);
            assert(old_vars.contains_key(p[p.len() - 1]));
        }
    }
}

fn find_key<T>(entries: &Vec<(VariableObject, T)>, key: &str) -> (r: Option<usize>)
    requires
        keys_unique(entries@),
    ensures
        match r {
            Some(i) => i < entries@.len() && entries@[i as int].0.0@ == key@ && key_position(
                entries@,
                key@,
            ) == Some(i as int),
            None => key_position(entries@, key@) is None,
        },
{
    let mut i: usize = 0;
    while i < entries.len()
        invariant
            i <= entries@.len(),
            keys_unique(entries@),
            forall|j: int| 0 <= j < i ==> (#[trigger] entries@[j]).0.0@ != key@,
        decreases entries.len() - i,
    {
        if str_eq(entries[i].0.0.as_str(), key) {
            proof {
                let c = choose|j: int| 0 <= j < entries@.len() && (#[trigger] entries@[j]).0.0@ == key@;
                assert(entries@[i as int].0.0@ == key@);
                if c != i {
                    assert(entries@[c].0.0@ != entries@[i as int].0.0@);
                }
            }
            return Some(i);
        }
        i += 1;
    }
    None
}

impl GdbStateGraph {
    /// The root node.
    pub closed spec fn root_spec(&self) -> GdbStateNode {
        self.root_node
    }

    /// The stack frame nodes, from the bottom of the stack up.
    pub closed spec fn frames(&self) -> Seq<GdbStateNode> {
        self.stack_trace@
    }

    /// The variable nodes with the names of their variable objects.
    pub closed spec fn variable_entries(&self) -> Seq<(VariableObject, GdbStateNodeForVariable)> {
        self.variables@
    }

    /// The length nodes of arrays with the names of their variable objects.
    pub closed spec fn length_entries(&self) -> Seq<(VariableObject, GdbStateNode)> {
        self.length_nodes@
    }

    /// The dereference nodes that have been created, by address.
    pub closed spec fn address_entries(&self) -> Map<u64, VariableObject> {
        self.address_mapping@
    }

    /// The variable nodes, by the names of their variable objects.
    pub open spec fn variables(&self) -> Map<Seq<char>, GdbStateNodeForVariable> {
        entries_map(self.variable_entries())
    }

    /// The length nodes of arrays, by the names of their variable objects.
    pub open spec fn lengths(&self) -> Map<Seq<char>, GdbStateNode> {
        entries_map(self.length_entries())
    }

    /// The variable nodes known to live at each address: the name of the
    /// variable object for each address.
    pub closed spec fn addresses(&self) -> Map<u64, Seq<char>> {
        self.address_mapping@.map_values(|v: VariableObject| v.0@)
    }

    /// The graph's invariant: variable and length nodes are kept under
    /// distinct names, and every frame node names its function.
    pub closed spec fn wf(&self) -> bool {
        &&& keys_unique(self.variables@)
        &&& keys_unique(self.length_nodes@)
        &&& forall|i: int| 0 <= i < self.stack_trace@.len() ==> (#[trigger] self.stack_trace@[i]).type_string is Some
    }

    /// A graph that only consists of the root node.
    pub fn empty() -> (r: GdbStateGraph)
        ensures
            r.wf(),
            r.root_spec().type_class == NodeTypeClass::Root,
            r.root_spec().type_string is None,
            r.root_spec().successors@.len() == 0,
            r.root_spec().value is None,
            r.frames().len() == 0,
            r.variable_entries().len() == 0,
            r.length_entries().len() == 0,
            r.address_entries() == Map::<u64, VariableObject>::empty(),
    {
        GdbStateGraph {
            root_node: GdbStateNode::new(NodeTypeClass::Root),
            stack_trace: Vec::new(),
            variables: Vec::new(),
            length_nodes: Vec::new(),
            address_mapping: BTreeMap::new(),
        }
    }

    /// The identifier of the root node.
    pub fn root(&self) -> (r: GdbStateNodeId)
        ensures
            r == GdbStateNodeId::Root,
    {
        GdbStateNodeId::Root
    }

    /// The node with this identifier, if the graph has one.
    pub fn get(&self, id: &GdbStateNodeId) -> (r: Option<&GdbStateNode>)
        requires
            self.wf(),
        ensures
            match id {
                GdbStateNodeId::Root => r == Some(&self.root_spec()),
                GdbStateNodeId::Frame(i) => if *i < self.frames().len() {
                    r == Some(&self.frames()[*i as int])
                } else {
                    r is None
                },
                GdbStateNodeId::VarObject(v) => if self.variables().contains_key(v.0@) {
                    r == Some(&self.variables()[v.0@].node)
                } else {
                    r is None
                },
                GdbStateNodeId::Length(v) => if self.lengths().contains_key(v.0@) {
                    r == Some(&self.lengths()[v.0@])
                } else {
                    r is None
                },
            },
    {
        match id {
            GdbStateNodeId::Root => Some(&self.root_node),
            GdbStateNodeId::Frame(i) => {
                if *i < self.stack_trace.len() {
                    Some(&self.stack_trace[*i])
                } else {
                    None
                }
            },
            GdbStateNodeId::VarObject(v) => match find_key(&self.variables, v.0.as_str()) {
                Some(k) => Some(&self.variables[k].1.node),
                None => None,
            },
            GdbStateNodeId::Length(v) => match find_key(&self.length_nodes, v.0.as_str()) {
                Some(k) => Some(&self.length_nodes[k].1),
                None => None,
            },
        }
    }

    /// The variable node of a variable object, with its bookkeeping.
    pub fn variable(&self, handle: &VariableObject) -> (r: Option<&GdbStateNodeForVariable>)
        requires
            self.wf(),
        ensures
            if self.variables().contains_key(handle.0@) {
                r == Some(&self.variables()[handle.0@])
            } else {
                r is None
            },
    {
        match find_key(&self.variables, handle.0.as_str()) {
            Some(k) => Some(&self.variables[k].1),
            None => None,
        }
    }

    /// The number of stack frames in the graph.
    pub fn frame_count(&self) -> (r: usize)
        ensures
            r == self.frames().len(),
    {
        self.stack_trace.len()
    }

    /// The node with this identifier, if the graph has one.
    pub open spec fn node_spec(&self, id: SpecNodeId) -> Option<GdbStateNode> {
        match id {
            SpecNodeId::Root => Some(self.root_spec()),
            SpecNodeId::Frame(i) => if i < self.frames().len() {
                Some(self.frames()[i as int])
            } else {
                None
            },
            SpecNodeId::VarObject(v) => if self.variables().contains_key(v) {
                Some(self.variables()[v].node)
            } else {
                None
            },
            SpecNodeId::Length(v) => if self.lengths().contains_key(v) {
                Some(self.lengths()[v])
            } else {
                None
            },
        }
    }

    /// The node reached from `origin` by following, for each label of `path`
    /// in turn, the first edge with that label; `None` where a node on the
    /// way is missing or has no such edge.
    pub open spec fn id_at(&self, origin: SpecNodeId, path: Seq<SpecEdgeLabel>) -> Option<SpecNodeId>
        decreases path.len(),
    {
        if path.len() == 0 {
            Some(origin)
        } else {
            match self.node_spec(origin) {
                None => None,
                Some(n) => match first_edge_index(edges_view(n.successors@), path[0]) {
                    None => None,
                    Some(i) => self.id_at(edges_view(n.successors@)[i].1, path.drop_first()),
                },
            }
        }
    }

    /// The identifier of the node reached from a node along a path of edge labels.
    pub fn get_id_at(&self, origin_id: &GdbStateNodeId, path: &Vec<EdgeLabel>) -> (r: Option<GdbStateNodeId>)
        requires
            self.wf(),
        ensures
            match r {
                Some(id) => self.id_at(origin_id@, labels_view(path@)) == Some(id@),
                None => self.id_at(origin_id@, labels_view(path@)) is None,
            },
    {
        let ghost labels = labels_view(path@);
        let mut id = origin_id.duplicate();
        let mut i: usize = 0;
        assert(labels.skip(0) =~= labels);
        while i < path.len()
            invariant
                self.wf(),
                i <= path@.len(),
                labels == labels_view(path@),
                self.id_at(origin_id@, labels) == self.id_at(id@, labels.skip(i as int)),
            decreases path@.len() - i,
        {
            proof {
                assert(labels.skip(i as int).drop_first() =~= labels.skip(i + 1));
                assert(labels.skip(i as int)[0] == path@[i as int]@);
            }
            let next = match self.get(&id) {
                Some(node) => node.get_successor(&path[i]),
                None => None,
            };
            match next {
                Some(n) => {
                    id = n;
                },
                None => {
                    return None;
                },
            }
            i += 1;
        }
        proof {
            assert(labels.skip(i as int).len() == 0);
        }
        Some(id)
    }

    /// The node reached from a node along a path of edge labels.
    pub fn get_at(&self, origin_id: &GdbStateNodeId, path: &Vec<EdgeLabel>) -> (r: Option<&GdbStateNode>)
        requires
            self.wf(),
        ensures
            r == match self.id_at(origin_id@, labels_view(path@)) {
                Some(id) => match self.node_spec(id) {
                    Some(n) => Some(&n),
                    None => None,
                },
                None => None,
            },
    {
        match self.get_id_at(origin_id, path) {
            Some(id) => self.get(&id),
            None => None,
        }
    }

    /// The identifier of the node reached from the root along a path of edge labels.
    pub fn get_id_at_root(&self, path: &Vec<EdgeLabel>) -> (r: Option<GdbStateNodeId>)
        requires
            self.wf(),
        ensures
            match r {
                Some(id) => self.id_at(SpecNodeId::Root, labels_view(path@)) == Some(id@),
                None => self.id_at(SpecNodeId::Root, labels_view(path@)) is None,
            },
    {
        self.get_id_at(&self.root(), path)
    }

    /// The node reached from the root along a path of edge labels.
    pub fn get_at_root(&self, path: &Vec<EdgeLabel>) -> (r: Option<&GdbStateNode>)
        requires
            self.wf(),
        ensures
            r == match self.id_at(SpecNodeId::Root, labels_view(path@)) {
                Some(id) => match self.node_spec(id) {
                    Some(n) => Some(&n),
                    None => None,
                },
                None => None,
            },
    {
        self.get_at(&self.root(), path)
    }

    /// Removes the node of a variable object and, recursively, the variable
    /// nodes and length nodes that its member, item and length edges lead to;
    /// returns the parent of the removed node. Dereference edges are left alone.
    #[verifier::spinoff_prover]
    #[verifier::rlimit(60)]
    pub fn remove_variables_recursive(&mut self, handle: &VariableObject) -> (r: Option<GdbStateNodeId>)
        requires
            old(self).wf(),
        ensures
            final(self).wf(),
            final(self).root_spec() == old(self).root_spec(),
            final(self).frames() == old(self).frames(),
            final(self).address_entries() == old(self).address_entries(),
            final(self).variable_entries().len() <= old(self).variable_entries().len(),
            r == if old(self).variables().contains_key(handle.0@) {
                old(self).variables()[handle.0@].parent
            } else {
                None
            },
            !final(self).variables().contains_key(handle.0@),
            forall|k: Seq<char>| #[trigger]
                final(self).variables().contains_key(k) == (old(self).variables().contains_key(k) && !in_subtree(
                    old(self).variables(),
                    handle.0@,
                    k,
                )),
            forall|k: Seq<char>| #[trigger]
                final(self).variables().contains_key(k) ==> final(self).variables()[k] == old(self).variables()[k],
            forall|v: Seq<char>| #[trigger]
                final(self).lengths().contains_key(v) == (old(self).lengths().contains_key(v) && !length_in_subtree(
                    old(self).variables(),
                    handle.0@,
                    v,
                )),
            forall|v: Seq<char>| #[trigger]
                final(self).lengths().contains_key(v) ==> final(self).lengths()[v] == old(self).lengths()[v],
        decreases old(self).variable_entries().len(),
    {
        let ghost old_vars = self.variables();
        let ghost old_lengths = self.lengths();
        let ghost start_len = self.variables@.len();
        let ghost h = handle.0@;
        match remove_key(&mut self.variables, handle.0.as_str()) {
            None => {
                proof {
                    reveal(in_subtree);
                    reveal(length_in_subtree);
                    assert forall|k: Seq<char>| !#[trigger] in_subtree(old_vars, h, k) by {
                        if in_subtree(old_vars, h, k) {
                            let p = choose|p: Seq<Seq<char>>| #[trigger] is_tree_path(old_vars, p) && p[0] == h && p.last() == k;
                            assert(old_vars.contains_key(p[0]));
                        }
                    }
                    assert forall|v: Seq<char>| !#[trigger] length_in_subtree(old_vars, h, v) by {
                        if length_in_subtree(old_vars, h, v) {
                            let k = choose|k: Seq<char>| #[trigger] in_subtree(old_vars, h, k) && tree_child(
                                old_vars[k].node,
                                SpecNodeId::Length(v),
                            );
                        }
                    }
                }
                None
            },
            Some((_, entry)) => {
                let parent = entry.parent;
                let succ = entry.node.successors;
                let ghost sv = edges_view(succ@);
                assert(sv == edges_view(old_vars[h].node.successors@));
                proof {
                    lemma_subtree_root(old_vars, h);
                    reveal(removal_sound);
                    reveal(removal_closed);
                }
                let mut i: usize = 0;
                while i < succ.len()
                    invariant
                        self.wf(),
                        sv == edges_view(succ@),
                        sv == edges_view(old_vars[h].node.successors@),
                        old_vars.contains_key(h),
                        i <= succ@.len(),
                        self.root_node == old(self).root_node,
                        self.stack_trace@ == old(self).stack_trace@,
                        self.address_mapping@ == old(self).address_mapping@,
                        self.variables@.len() < start_len,
                        start_len == old(self).variables@.len(),
                        old_vars == old(self).variables(),
                        old_lengths == old(self).lengths(),
                        !self.variables().contains_key(h),
                        forall|k: Seq<char>| #[trigger]
                            self.variables().contains_key(k) ==> old_vars.contains_key(k)
                                && self.variables()[k] == old_vars[k],
                        forall|k: Seq<char>| #[trigger]
                            self.lengths().contains_key(k) ==> old_lengths.contains_key(k)
                                && self.lengths()[k] == old_lengths[k],
                        forall|j: int|
                            0 <= j < i && is_tree_edge((#[trigger] sv[j]).0) ==> match sv[j].1 {
                                SpecNodeId::VarObject(v) => !self.variables().contains_key(v),
                                SpecNodeId::Length(v) => !self.lengths().contains_key(v),
                                _ => true,
                            },
                        removal_sound(old_vars, old_lengths, self.variables(), self.lengths(), h),
                        removal_closed(old_vars, self.variables(), self.lengths(), h),
                    decreases succ@.len() - i,
                {
                    let is_tree = match &succ[i].0 {
                        EdgeLabel::Named(_, _) | EdgeLabel::Index(_) | EdgeLabel::Length => true,
                        _ => false,
                    };
                    let ghost before_vars = self.variables();
                    let ghost before_lengths = self.lengths();
                    if is_tree {
                        match &succ[i].1 {
                            GdbStateNodeId::VarObject(v) => {
                                proof {
                                    assert(tree_child(old_vars[h].node, SpecNodeId::VarObject(v.0@))) by {
                                        let ev = edges_view(old_vars[h].node.successors@);
                                        assert(ev.len() == old_vars[h].node.successors@.len());
                                        assert(sv.len() == succ@.len());
                                        assert(sv[i as int] == (succ@[i as int].0@, succ@[i as int].1@));
                                        assert(is_tree_edge(sv[i as int].0));
                                        assert(0 <= i < old_vars[h].node.successors@.len());
                                        assert(is_tree_edge(ev[i as int].0) && ev[i as int].1 == SpecNodeId::VarObject(v.0@));
                                    }
                                }
                                self.remove_variables_recursive(v);
                                proof {
                                    assert(subtree_removed(before_vars, before_lengths, self.variables(), self.lengths(), v.0@));
                                    lemma_subtree_removal_step(
                                        old_vars,
                                        old_lengths,
                                        before_vars,
                                        before_lengths,
                                        self.variables(),
                                        self.lengths(),
                                        h,
                                        v.0@,
                                    );
                                }
                            },
                            GdbStateNodeId::Length(v) => {
                                remove_key(&mut self.length_nodes, v.0.as_str());
                                proof {
                                    assert(tree_child(old_vars[h].node, SpecNodeId::Length(v.0@))) by {
                                        let ev = edges_view(old_vars[h].node.successors@);
                                        assert(ev.len() == old_vars[h].node.successors@.len());
                                        assert(sv.len() == succ@.len());
                                        assert(sv[i as int] == (succ@[i as int].0@, succ@[i as int].1@));
                                        assert(is_tree_edge(sv[i as int].0));
                                        assert(0 <= i < old_vars[h].node.successors@.len());
                                        assert(is_tree_edge(ev[i as int].0) && ev[i as int].1 == SpecNodeId::Length(v.0@));
                                    }
                                    lemma_length_removal_step(old_vars, old_lengths, self.variables(), before_lengths, self.lengths(), h, v.0@);
                                }
                            },
                            _ => {},
                        }
                    }
                    proof {
                        assert forall|j: int|
                            0 <= j <= i && is_tree_edge((#[trigger] sv[j]).0) implies match sv[j].1 {
                                SpecNodeId::VarObject(v) => !self.variables().contains_key(v),
                                SpecNodeId::Length(v) => !self.lengths().contains_key(v),
                                _ => true,
                            } by {
                            if j < i {
                                match sv[j].1 {
                                    SpecNodeId::VarObject(v) => {
                                        if self.variables().contains_key(v) {
                                            assert(before_vars.contains_key(v));
                                        }
                                    },
                                    SpecNodeId::Length(v) => {
                                        if self.lengths().contains_key(v) {
                                            assert(before_lengths.contains_key(v));
                                        }
                                    },
                                    _ => {},
                                }
                            }
                        }
                    }
                    i += 1;
                }
                proof {
                    assert forall|c: Seq<char>| #[trigger] tree_child(old_vars[h].node, SpecNodeId::VarObject(c)) implies !self.variables().contains_key(c) by {
                        let j = choose|j: int|
                            0 <= j < old_vars[h].node.successors@.len() && is_tree_edge(edges_view(old_vars[h].node.successors@)[j].0)
                                && #[trigger] edges_view(old_vars[h].node.successors@)[j].1 == SpecNodeId::VarObject(c);
                        assert(is_tree_edge(sv[j].0));
                    }
                    assert forall|v: Seq<char>| #[trigger] tree_child(old_vars[h].node, SpecNodeId::Length(v)) implies !self.lengths().contains_key(v) by {
                        let j = choose|j: int|
                            0 <= j < old_vars[h].node.successors@.len() && is_tree_edge(edges_view(old_vars[h].node.successors@)[j].0)
                                && #[trigger] edges_view(old_vars[h].node.successors@)[j].1 == SpecNodeId::Length(v);
                        assert(is_tree_edge(sv[j].0));
                    }
                    lemma_subtree_removal_done(old_vars, old_lengths, self.variables(), self.lengths(), h);
                }
                parent
            },
        }
    }

    /// Takes the node of a variable object out, to change it.
    fn take_variable(&mut self, handle: &VariableObject) -> (r: (VariableObject, GdbStateNodeForVariable))
        requires
            old(self).wf(),
            old(self).variables().contains_key(handle.0@),
        ensures
            keys_unique(final(self).variables@),
            final(self).variables() == old(self).variables().remove(handle.0@),
            r.0.0@ == handle.0@,
            r.1 == old(self).variables()[handle.0@],
            final(self).root_node == old(self).root_node,
            final(self).stack_trace@ == old(self).stack_trace@,
            final(self).length_nodes@ == old(self).length_nodes@,
            final(self).address_mapping@ == old(self).address_mapping@,
    {
        match remove_key(&mut self.variables, handle.0.as_str()) {
            Some(e) => e,
            None => {
                assert(false);
                (VariableObject(String::new()), GdbStateNodeForVariable::new(GdbStateNode::new(NodeTypeClass::Atom), None))
            },
        }
    }

    /// Puts back a node of a variable object that [`Self::take_variable`] took out.
    fn put_variable(&mut self, key: VariableObject, entry: GdbStateNodeForVariable)
        requires
            keys_unique(old(self).variables@),
            keys_unique(old(self).length_nodes@),
            forall|i: int| 0 <= i < old(self).stack_trace@.len() ==> (#[trigger] old(self).stack_trace@[i]).type_string is Some,
        ensures
            final(self).wf(),
            final(self).variables() == old(self).variables().insert(key.0@, entry),
            final(self).root_node == old(self).root_node,
            final(self).stack_trace@ == old(self).stack_trace@,
            final(self).length_nodes@ == old(self).length_nodes@,
            final(self).address_mapping@ == old(self).address_mapping@,
    {
        upsert(&mut self.variables, key, entry);
    }

    /// A variable object went out of scope: its subtree is removed and, when
    /// its parent is a stack frame, so is the first edge of that frame that
    /// leads to it. References to nodes that are gone are detached: their
    /// dereference edges and the address entries that name them are dropped.
    pub fn forget_variable(&mut self, handle: &VariableObject)
        requires
            old(self).wf(),
        ensures
            final(self).wf(),
            final(self).root_spec() == old(self).root_spec(),
            !final(self).variables().contains_key(handle.0@),
            forall|k: Seq<char>| #[trigger]
                final(self).variables().contains_key(k) == (old(self).variables().contains_key(k) && !in_subtree(
                    old(self).variables(),
                    handle.0@,
                    k,
                )),
            forall|k: Seq<char>|
                #[trigger] final(self).variables().contains_key(k) ==> {
                    let before = old(self).variables()[k];
                    let after = final(self).variables()[k];
                    &&& after.node.successors@ == kept(
                        before.node.successors@,
                        dangles(final(self).variables().dom()),
                    )
                    &&& after.node.type_class == before.node.type_class
                    &&& after.node.type_string == before.node.type_string
                    &&& after.node.value == before.node.value
                    &&& after.parent == before.parent
                    &&& after.address == before.address
                    &&& after.referers == before.referers
                },
            forall|v: Seq<char>| #[trigger]
                final(self).lengths().contains_key(v) == (old(self).lengths().contains_key(v) && !length_in_subtree(
                    old(self).variables(),
                    handle.0@,
                    v,
                )),
            forall|v: Seq<char>| #[trigger]
                final(self).lengths().contains_key(v) ==> final(self).lengths()[v] == old(self).lengths()[v],
            final(self).address_entries() == live_addresses(old(self).address_entries(), final(self).variables().dom()),
            final(self).frames().len() == old(self).frames().len(),
            forall|j: int|
                0 <= j < old(self).frames().len() && !(old(self).variables().contains_key(handle.0@)
                    && old(self).variables()[handle.0@].parent == Some(GdbStateNodeId::Frame(j as usize)))
                    ==> #[trigger] final(self).frames()[j] == old(self).frames()[j],
            forall|j: int|
                0 <= j < old(self).frames().len() && old(self).variables().contains_key(handle.0@)
                    && old(self).variables()[handle.0@].parent == Some(GdbStateNodeId::Frame(j as usize))
                    ==> {
                    let before = old(self).frames()[j];
                    let after = #[trigger] final(self).frames()[j];
                    &&& after.type_class == before.type_class
                    &&& after.type_string == before.type_string
                    &&& after.value == before.value
                    &&& after.successors@ == match first_target_index(
                        edges_view(before.successors@),
                        SpecNodeId::VarObject(handle.0@),
                    ) {
                        Some(k) => super::state::swap_removed(before.successors@, k),
                        None => before.successors@,
                    }
                },
    {
        let parent = self.remove_variables_recursive(handle);
        let ghost mid_lengths = self.length_nodes@;
        let ghost mid_variables = self.variables@;
        let ghost mid_length_map = self.lengths();
        let ghost mid_variable_map = self.variables();
        match parent {
            Some(GdbStateNodeId::Frame(i)) => {
                if i < self.stack_trace.len() {
                    let mut frame = self.stack_trace.remove(i);
                    let id = GdbStateNodeId::VarObject(VariableObject(handle.0.clone()));
                    frame.remove_successor_by_id(&id);
                    self.stack_trace.insert(i, frame);
                    proof {
                        assert(self.length_nodes@ == mid_lengths);
                        assert(self.variables@ == mid_variables);
                        assert(self.lengths() == mid_length_map);
                        assert(self.variables() == mid_variable_map);
                        assert forall|j: int| 0 <= j < self.stack_trace@.len() implies (#[trigger] self.stack_trace@[j]).type_string is Some by {
                            if j != i {
                                assert(self.stack_trace@[j] == old(self).stack_trace@[j]);
                            }
                        }
                    }
                }
            },
            _ => {},
        }
        self.detach_dangling();
    }

    /// Drops what refers to variable nodes that are gone: the dereference
    /// edges that lead to them, and the address entries that name them.
    pub fn detach_dangling(&mut self)
        requires
            old(self).wf(),
        ensures
            final(self).wf(),
            final(self).root_spec() == old(self).root_spec(),
            final(self).frames() == old(self).frames(),
            final(self).lengths() == old(self).lengths(),
            final(self).variables().dom() == old(self).variables().dom(),
            forall|k: Seq<char>|
                #[trigger] old(self).variables().contains_key(k) ==> {
                    let before = old(self).variables()[k];
                    let after = final(self).variables()[k];
                    &&& after.node.successors@ == kept(before.node.successors@, dangles(old(self).variables().dom()))
                    &&& after.node.type_class == before.node.type_class
                    &&& after.node.type_string == before.node.type_string
                    &&& after.node.value == before.node.value
                    &&& after.parent == before.parent
                    &&& after.address == before.address
                    &&& after.referers == before.referers
                },
            final(self).address_entries() == live_addresses(old(self).address_entries(), old(self).variables().dom()),
    {
        let ghost vars = self.variables();
        let ghost v0 = self.variables@;
        // The names of all variable nodes
        let mut names: Vec<String> = Vec::new();
        let mut i: usize = 0;
        while i < self.variables.len()
            invariant
                i <= self.variables@.len(),
                names@.len() == i,
                forall|j: int| 0 <= j < i ==> (#[trigger] names@[j])@ == self.variables@[j].0.0@,
            decreases self.variables@.len() - i,
        {
            names.push(self.variables[i].0.0.clone());
            i += 1;
        }
        proof {
            assert forall|x: Seq<char>| vars.contains_key(x) <==> exists|j: int|
                0 <= j < names@.len() && (#[trigger] names@[j])@ == x by {
                if vars.contains_key(x) {
                    let p = key_position(v0, x)->0;
                    assert(names@[p]@ == x);
                }
                if exists|j: int| 0 <= j < names@.len() && (#[trigger] names@[j])@ == x {
                    let j = choose|j: int| 0 <= j < names@.len() && (#[trigger] names@[j])@ == x;
                    assert(v0[j].0.0@ == x);
                }
            }
        }
        // Drop the dangling dereference edges of every variable node
        let mut i: usize = 0;
        while i < self.variables.len()
            invariant
                forall|x: Seq<char>| vars.contains_key(x) <==> exists|j: int| 0 <= j < names@.len() && (#[trigger] names@[j])@ == x,
                vars == old(self).variables(),
                v0 == old(self).variables@,
                i <= self.variables@.len(),
                self.variables@.len() == v0.len(),
                keys_unique(v0),
                keys_unique(self.variables@),
                forall|j: int| 0 <= j < v0.len() ==> (#[trigger] self.variables@[j]).0 == v0[j].0,
                forall|j: int| i <= j < v0.len() ==> (#[trigger] self.variables@[j]) == v0[j],
                forall|j: int|
                    0 <= j < i ==> {
                        let before = v0[j].1;
                        let after = (#[trigger] self.variables@[j]).1;
                        &&& after.node.successors@ == kept(before.node.successors@, dangles(vars.dom()))
                        &&& after.node.type_class == before.node.type_class
                        &&& after.node.type_string == before.node.type_string
                        &&& after.node.value == before.node.value
                        &&& after.parent == before.parent
                        &&& after.address == before.address
                        &&& after.referers == before.referers
                    },
                self.root_node == old(self).root_node,
                self.stack_trace@ == old(self).stack_trace@,
                self.length_nodes@ == old(self).length_nodes@,
                self.address_mapping@ == old(self).address_mapping@,
            decreases self.variables@.len() - i,
        {
            let ghost before = self.variables@;
            let (key, mut entry) = self.variables.remove(i);
            drop_dangling_edges(&mut entry.node.successors, &names, Ghost(vars));
            self.variables.insert(i, (key, entry));
            proof {
                assert forall|j: int| 0 <= j < v0.len() implies (#[trigger] self.variables@[j]).0 == v0[j].0 by {
                    if j != i {
                        assert(self.variables@[j] == before[j]);
                    }
                }
                assert forall|a: int, b: int|
                    0 <= a < self.variables@.len() && 0 <= b < self.variables@.len() && a != b implies (
                    #[trigger] self.variables@[a]).0.0@ != (#[trigger] self.variables@[b]).0.0@ by {
                    assert(self.variables@[a].0 == v0[a].0);
                    assert(self.variables@[b].0 == v0[b].0);
                }
                assert forall|j: int| i + 1 <= j < v0.len() implies (#[trigger] self.variables@[j]) == v0[j] by {
                    assert(self.variables@[j] == before[j]);
                }
                assert forall|j: int|
                    0 <= j < i + 1 implies {
                        let before_j = v0[j].1;
                        let after = (#[trigger] self.variables@[j]).1;
                        &&& after.node.successors@ == kept(before_j.node.successors@, dangles(vars.dom()))
                        &&& after.node.type_class == before_j.node.type_class
                        &&& after.node.type_string == before_j.node.type_string
                        &&& after.node.value == before_j.node.value
                        &&& after.parent == before_j.parent
                        &&& after.address == before_j.address
                        &&& after.referers == before_j.referers
                    } by {
                    if j < i {
                        assert(self.variables@[j] == before[j]);
                    }
                }
            }
            i += 1;
        }
        // Drop the address entries of variable nodes that are gone
        let ghost a0 = self.address_mapping@;
        let ghost v1 = self.variables@;
        let ghost ks = IteratorSpec::remaining(&spec_keys_iter(&self.address_mapping)).unref();
        let mut gone: Vec<u64> = Vec::new();
        for key in it: self.address_mapping.keys()
            invariant
                it.seq().unref() == ks,
                ks.to_set() == a0.dom(),
                a0 == old(self).address_mapping@,
                self.address_mapping@ == a0,
                forall|x: Seq<char>| vars.contains_key(x) <==> exists|j: int| 0 <= j < names@.len() && (#[trigger] names@[j])@ == x,
                forall|j: int|
                    0 <= j < gone@.len() ==> a0.contains_key(#[trigger] gone@[j]) && !vars.contains_key(a0[gone@[j]].0@),
                forall|j: int|
                    0 <= j < it.index() && !vars.contains_key(a0[#[trigger] ks[j]].0@) ==> gone@.contains(ks[j]),
        {
            let ghost before = gone@;
            proof {
                assert(ks[it.index()] == *key);
                assert(ks.to_set().contains(*key));
            }
            match self.address_mapping.get(key) {
                Some(v) => {
                    if !names_contain(&names, v.0.as_str()) {
                        gone.push(*key);
                        proof {
                            assert(!vars.contains_key(a0[*key].0@));
                            assert(gone@ == before.push(*key));
                        }
                    } else {
                        proof {
                            assert(vars.contains_key(a0[*key].0@));
                            assert(gone@ == before);
                        }
                    }
                },
                None => {
                    proof {
                        assert(false);
                    }
                },
            }
            proof {
                assert forall|j: int|
                    0 <= j < gone@.len() implies a0.contains_key(#[trigger] gone@[j]) && !vars.contains_key(a0[gone@[j]].0@) by {
                    if j < before.len() {
                        assert(gone@[j] == before[j]);
                    }
                }
                assert forall|j: int|
                    0 <= j < it.index() + 1 && !vars.contains_key(a0[#[trigger] ks[j]].0@) implies gone@.contains(ks[j]) by {
                    if j < it.index() {
                        let q = choose|q: int| 0 <= q < before.len() && before[q] == ks[j];
                        assert(gone@[q] == before[q]);
                    } else {
                        assert(gone@[gone@.len() - 1] == ks[j]);
                    }
                }
            }
        }
        proof {
            assert forall|a: u64| a0.contains_key(a) && !vars.contains_key(a0[a].0@) implies gone@.contains(a) by {
                assert(ks.to_set().contains(a));
                let j = choose|j: int| 0 <= j < ks.len() && ks[j] == a;
            }
        }
        let mut g: usize = 0;
        while g < gone.len()
            invariant
                self.variables@ == v1,
                self.root_node == old(self).root_node,
                self.stack_trace@ == old(self).stack_trace@,
                self.length_nodes@ == old(self).length_nodes@,
                a0 == old(self).address_mapping@,
                g <= gone@.len(),
                self.address_mapping@ == a0.restrict(a0.dom().filter(|a: u64| !gone@.take(g as int).contains(a))),
            decreases gone@.len() - g,
        {
            let ghost before = self.address_mapping@;
            self.address_mapping.remove(&gone[g]);
            proof {
                let done = gone@.take(g + 1);
                assert(done =~= gone@.take(g as int).push(gone@[g as int]));
                assert forall|a: u64| #[trigger] done.contains(a) <==> (gone@.take(g as int).contains(a) || a == gone@[g as int]) by {
                    if done.contains(a) {
                        let q = choose|q: int| 0 <= q < done.len() && done[q] == a;
                        if q < g {
                            assert(gone@.take(g as int)[q] == a);
                        }
                    }
                    if gone@.take(g as int).contains(a) {
                        let q = choose|q: int| 0 <= q < g && gone@.take(g as int)[q] == a;
                        assert(done[q] == a);
                    }
                    if a == gone@[g as int] {
                        assert(done[g as int] == a);
                    }
                }
                assert(self.address_mapping@ =~= a0.restrict(a0.dom().filter(|a: u64| !done.contains(a))));
            }
            g += 1;
        }
        proof {
            let names_set = vars.dom();
            assert(gone@.take(gone@.len() as int) =~= gone@);
            assert forall|a: u64| #[trigger] gone@.contains(a) <==> (a0.contains_key(a) && !names_set.contains(a0[a].0@)) by {
                if gone@.contains(a) {
                    let q = choose|q: int| 0 <= q < gone@.len() && gone@[q] == a;
                }
            }
            assert(self.address_mapping@ =~= live_addresses(a0, names_set));
        }
        proof {
            assert forall|k: Seq<char>| #[trigger] old(self).variables().contains_key(k) implies {
                let before = old(self).variables()[k];
                let after = self.variables()[k];
                &&& after.node.successors@ == kept(before.node.successors@, dangles(old(self).variables().dom()))
                &&& after.node.type_class == before.node.type_class
                &&& after.node.type_string == before.node.type_string
                &&& after.node.value == before.node.value
                &&& after.parent == before.parent
                &&& after.address == before.address
                &&& after.referers == before.referers
            } by {
                lemma_same_keys_same_positions(self.variables@, v0, k);
            }
            assert forall|k: Seq<char>| #[trigger] self.variables().contains_key(k) == vars.contains_key(k) by {
                lemma_same_keys_same_positions(self.variables@, v0, k);
            }
            assert(self.variables().dom() =~= vars.dom());
            assert forall|j: int| 0 <= j < self.stack_trace@.len() implies (#[trigger] self.stack_trace@[j]).type_string is Some by {
                assert(self.stack_trace@[j] == old(self).stack_trace@[j]);
            }
        }
    }

    /// Reads the new value of a variable object that is still in scope.
    /// A reference also loses its dereference edge; when its new value is an
    /// address and its type is known, these are returned, so that the target
    /// can be attached again.
    pub fn update_variable_value(&mut self, handle: &VariableObject, value: Option<String>) -> (r: Option<(u64, String)>)
        requires
            old(self).wf(),
        ensures
            final(self).wf(),
            final(self).root_spec() == old(self).root_spec(),
            final(self).frames() == old(self).frames(),
            final(self).lengths() == old(self).lengths(),
            final(self).address_entries() == old(self).address_entries(),
            !old(self).variables().contains_key(handle.0@) ==> final(self).variables() == old(self).variables() && r is None,
            old(self).variables().contains_key(handle.0@) ==> {
                let before = old(self).variables()[handle.0@];
                let after = final(self).variables()[handle.0@];
                let v = match value {
                    Some(s) => spec_node_value(s@),
                    None => None,
                };
                &&& final(self).variables() == old(self).variables().insert(handle.0@, after)
                &&& after.node.value == v
                &&& after.node.type_class == before.node.type_class
                &&& after.node.type_string == before.node.type_string
                &&& after.parent == before.parent
                &&& after.address == before.address
                &&& after.referers == before.referers
                &&& before.node.type_class != NodeTypeClass::Ref ==> after.node.successors == before.node.successors && r is None
                &&& before.node.type_class == NodeTypeClass::Ref ==> (after.node.successors@ == match first_edge_index(
                    edges_view(before.node.successors@),
                    SpecEdgeLabel::Deref,
                ) {
                    Some(k) => super::state::swap_removed(before.node.successors@, k),
                    None => before.node.successors@,
                }) && match (v, before.node.type_string) {
                    (Some(NodeValue::Uint(a)), Some(t)) => r matches Some((x, s)) && x == a && s@ == t@,
                    _ => r is None,
                }
            },
    {
        match find_key(&self.variables, handle.0.as_str()) {
            None => None,
            Some(_) => {
                let (key, mut entry) = self.take_variable(handle);
                entry.node.value = match &value {
                    Some(s) => parse_node_value(s.as_str()),
                    None => None,
                };
                let mut result: Option<(u64, String)> = None;
                if entry.node.type_class == NodeTypeClass::Ref {
                    entry.node.remove_successor(&EdgeLabel::Deref);
                    match (entry.node.value, &entry.node.type_string) {
                        (Some(NodeValue::Uint(address)), Some(t)) => {
                            result = Some((address, t.clone()));
                        },
                        _ => {},
                    }
                }
                self.put_variable(key, entry);
                proof {
                    assert(old(self).variables().remove(handle.0@).insert(handle.0@, entry) =~= old(self).variables().insert(handle.0@, entry));
                }
                result
            },
        }
    }

    /// Decides how the node of a variable object with children goes on: a node
    /// with a value is a pointer, and becomes a reference node; one without
    /// a value is a container whose children must be listed.
    pub fn plan_non_atom(&mut self, handle: &VariableObject) -> (r: NonAtomPlan)
        requires
            old(self).wf(),
            old(self).variables().contains_key(handle.0@),
        ensures
            final(self).wf(),
            final(self).root_spec() == old(self).root_spec(),
            final(self).frames() == old(self).frames(),
            final(self).lengths() == old(self).lengths(),
            final(self).address_entries() == old(self).address_entries(),
            ({
                let before = old(self).variables()[handle.0@];
                match before.node.value {
                    None => r == NonAtomPlan::Children && final(self).variables() == old(self).variables(),
                    Some(v) => {
                        &&& final(self).variables() == old(self).variables().insert(
                            handle.0@,
                            GdbStateNodeForVariable {
                                node: GdbStateNode {
                                    type_class: NodeTypeClass::Ref,
                                    ..before.node
                                },
                                ..before
                            },
                        )
                        &&& r == match v {
                            NodeValue::Uint(a) => if a != 0 {
                                NonAtomPlan::Pointer(a)
                            } else {
                                NonAtomPlan::NoTarget
                            },
                            _ => NonAtomPlan::NoTarget,
                        }
                    },
                }
            }),
    {
        let (key, mut entry) = self.take_variable(handle);
        let ghost before = entry;
        let plan = match entry.node.value {
            None => NonAtomPlan::Children,
            Some(v) => {
                entry.node.type_class = NodeTypeClass::Ref;
                match v {
                    NodeValue::Uint(a) => if a != 0 {
                        NonAtomPlan::Pointer(a)
                    } else {
                        NonAtomPlan::NoTarget
                    },
                    _ => NonAtomPlan::NoTarget,
                }
            },
        };
        self.put_variable(key, entry);
        proof {
            assert(old(self).variables().remove(handle.0@).insert(handle.0@, entry) =~= old(self).variables().insert(handle.0@, entry));
            if before.node.value is None {
                assert(old(self).variables().insert(handle.0@, entry) =~= old(self).variables());
            }
        }
        plan
    }

    /// The type name of the node of a variable object.
    pub fn variable_type(&self, handle: &VariableObject) -> (r: Option<String>)
        requires
            self.wf(),
        ensures
            if self.variables().contains_key(handle.0@) {
                match self.variables()[handle.0@].node.type_string {
                    Some(t) => r matches Some(s) && s@ == t@,
                    None => r is None,
                }
            } else {
                r is None
            },
    {
        match find_key(&self.variables, handle.0.as_str()) {
            Some(k) => match &self.variables[k].1.node.type_string {
                Some(t) => Some(t.clone()),
                None => None,
            },
            None => None,
        }
    }

    /// Sets the type class of a container node; arrays lose their type name.
    pub fn set_container_kind(&mut self, handle: &VariableObject, kind: ContainerKind)
        requires
            old(self).wf(),
            old(self).variables().contains_key(handle.0@),
        ensures
            final(self).wf(),
            final(self).root_spec() == old(self).root_spec(),
            final(self).frames() == old(self).frames(),
            final(self).lengths() == old(self).lengths(),
            final(self).address_entries() == old(self).address_entries(),
            ({
                let before = old(self).variables()[handle.0@];
                final(self).variables() == old(self).variables().insert(
                    handle.0@,
                    GdbStateNodeForVariable {
                        node: GdbStateNode {
                            type_class: match kind {
                                ContainerKind::Struct => NodeTypeClass::Struct,
                                ContainerKind::Array => NodeTypeClass::Array,
                                ContainerKind::Pointer => NodeTypeClass::Ref,
                            },
                            type_string: if kind == ContainerKind::Array {
                                None
                            } else {
                                before.node.type_string
                            },
                            ..before.node
                        },
                        ..before
                    },
                )
            }),
    {
        let (key, mut entry) = self.take_variable(handle);
        entry.node.type_class = match kind {
            ContainerKind::Struct => NodeTypeClass::Struct,
            ContainerKind::Array => NodeTypeClass::Array,
            ContainerKind::Pointer => NodeTypeClass::Ref,
        };
        if kind == ContainerKind::Array {
            entry.node.type_string = None;
        }
        self.put_variable(key, entry);
        proof {
            assert(old(self).variables().remove(handle.0@).insert(handle.0@, entry) =~= old(self).variables().insert(handle.0@, entry));
        }
    }

    /// Adds an edge to the node of a variable object.
    pub fn push_variable_successor(&mut self, handle: &VariableObject, label: EdgeLabel, target: GdbStateNodeId)
        requires
            old(self).wf(),
            old(self).variables().contains_key(handle.0@),
        ensures
            final(self).wf(),
            final(self).root_spec() == old(self).root_spec(),
            final(self).frames() == old(self).frames(),
            final(self).lengths() == old(self).lengths(),
            final(self).address_entries() == old(self).address_entries(),
            ({
                let before = old(self).variables()[handle.0@];
                let after = final(self).variables()[handle.0@];
                &&& final(self).variables() == old(self).variables().insert(handle.0@, after)
                &&& after.node.successors@ == before.node.successors@.push((label, target))
                &&& after.node.type_class == before.node.type_class
                &&& after.node.type_string == before.node.type_string
                &&& after.node.value == before.node.value
                &&& after.parent == before.parent
                &&& after.address == before.address
                &&& after.referers == before.referers
            }),
    {
        let (key, mut entry) = self.take_variable(handle);
        entry.node.successors.push((label, target));
        self.put_variable(key, entry);
        proof {
            assert(old(self).variables().remove(handle.0@).insert(handle.0@, entry) =~= old(self).variables().insert(handle.0@, entry));
        }
    }

    /// Adds a named edge to the node of a variable object; its discriminator
    /// counts the edges of that name the node already has.
    pub fn add_named_variable_successor(&mut self, handle: &VariableObject, name: String, target: GdbStateNodeId)
        requires
            old(self).wf(),
            old(self).variables().contains_key(handle.0@),
        ensures
            final(self).wf(),
            final(self).root_spec() == old(self).root_spec(),
            final(self).frames() == old(self).frames(),
            final(self).lengths() == old(self).lengths(),
            final(self).address_entries() == old(self).address_entries(),
            ({
                let before = old(self).variables()[handle.0@];
                let after = final(self).variables()[handle.0@];
                &&& final(self).variables() == old(self).variables().insert(handle.0@, after)
                &&& after.node.successors@ == before.node.successors@.push(
                    (
                        EdgeLabel::Named(
                            name,
                            super::state::named_count(edges_view(before.node.successors@), name@) as usize,
                        ),
                        target,
                    ),
                )
                &&& after.node.type_class == before.node.type_class
                &&& after.node.type_string == before.node.type_string
                &&& after.node.value == before.node.value
                &&& after.parent == before.parent
            }),
    {
        let (key, mut entry) = self.take_variable(handle);
        entry.node.add_named_successor(name, target);
        self.put_variable(key, entry);
        proof {
            assert(old(self).variables().remove(handle.0@).insert(handle.0@, entry) =~= old(self).variables().insert(handle.0@, entry));
        }
    }

    /// Records the length of an array: a length node holding it, and a
    /// length edge from the array's node to it.
    pub fn add_array_length(&mut self, handle: &VariableObject, length: usize)
        requires
            old(self).wf(),
            old(self).variables().contains_key(handle.0@),
        ensures
            final(self).wf(),
            final(self).root_spec() == old(self).root_spec(),
            final(self).frames() == old(self).frames(),
            final(self).address_entries() == old(self).address_entries(),
            final(self).lengths().dom() == old(self).lengths().dom().insert(handle.0@),
            forall|k: Seq<char>| k != handle.0@ && #[trigger] old(self).lengths().contains_key(k) ==> final(self).lengths()[k] == old(self).lengths()[k],
            ({
                let n = final(self).lengths()[handle.0@];
                &&& n.type_class == NodeTypeClass::Atom
                &&& n.type_string is None
                &&& n.successors@.len() == 0
                &&& n.value == Some(NodeValue::Uint(length as u64))
            }),
            ({
                let before = old(self).variables()[handle.0@];
                let after = final(self).variables()[handle.0@];
                &&& final(self).variables() == old(self).variables().insert(handle.0@, after)
                &&& after.node.successors@.len() == before.node.successors@.len() + 1
                &&& after.node.successors@.drop_last() == before.node.successors@
                &&& after.node.successors@.last().0 == EdgeLabel::Length
                &&& after.node.successors@.last().1@ == SpecNodeId::Length(handle.0@)
                &&& after.node.type_class == before.node.type_class
                &&& after.node.type_string == before.node.type_string
                &&& after.node.value == before.node.value
                &&& after.parent == before.parent
            }),
    {
        let mut length_node = GdbStateNode::new(NodeTypeClass::Atom);
        length_node.value = Some(NodeValue::Uint(length as u64));
        let ghost old_lengths = self.lengths();
        upsert(&mut self.length_nodes, VariableObject(handle.0.clone()), length_node);
        proof {
            assert(self.lengths() =~= old_lengths.insert(handle.0@, length_node));
        }
        let (key, mut entry) = self.take_variable(handle);
        entry.node.successors.push((EdgeLabel::Length, GdbStateNodeId::Length(VariableObject(handle.0.clone()))));
        self.put_variable(key, entry);
        proof {
            assert(old(self).variables().remove(handle.0@).insert(handle.0@, entry) =~= old(self).variables().insert(handle.0@, entry));
            assert(entry.node.successors@.drop_last() =~= old(self).variables()[handle.0@].node.successors@);
        }
    }

    /// Links an element of an array to the array's node under the index that
    /// its name spells, and returns the array's length grown to hold it; an
    /// element whose name does not spell an index is left out, and the length
    /// stays.
    pub fn add_array_element(&mut self, handle: &VariableObject, exp: &str, target: GdbStateNodeId, length: usize) -> (r:
        usize)
        requires
            old(self).wf(),
            old(self).variables().contains_key(handle.0@),
            spec_parse_unsigned(exp@, 10, usize::MAX as int) != Some(usize::MAX as int),
        ensures
            final(self).wf(),
            final(self).root_spec() == old(self).root_spec(),
            final(self).frames() == old(self).frames(),
            final(self).lengths() == old(self).lengths(),
            final(self).address_entries() == old(self).address_entries(),
            match spec_parse_unsigned(exp@, 10, usize::MAX as int) {
                Some(i) => {
                    let before = old(self).variables()[handle.0@];
                    let after = final(self).variables()[handle.0@];
                    &&& final(self).variables() == old(self).variables().insert(handle.0@, after)
                    &&& after.node.successors@ == before.node.successors@.push((EdgeLabel::Index(i as usize), target))
                    &&& after.node.type_class == before.node.type_class
                    &&& after.node.type_string == before.node.type_string
                    &&& after.node.value == before.node.value
                    &&& after.parent == before.parent
                    &&& r == if length > i { length as int } else { i + 1 }
                },
                None => final(self).variables() == old(self).variables() && r == length,
            },
    {
        match parse_usize(exp) {
            Some(index) => {
                self.push_variable_successor(handle, EdgeLabel::Index(index), target);
                if length > index {
                    length
                } else {
                    index + 1
                }
            },
            None => length,
        }
    }

    /// The variable objects of the graph that GDB knows as top-level ones:
    /// those whose nodes do not hang below another variable node.
    pub fn top_level_variables(&self) -> (r: Vec<VariableObject>)
        requires
            self.wf(),
        ensures
            forall|i: int|
                0 <= i < r@.len() ==> self.variables().contains_key((#[trigger] r@[i]).0@) && !(self.variables()[r@[i].0@].parent matches Some(
                    GdbStateNodeId::VarObject(_),
                )),
            forall|k: Seq<char>|
                #[trigger] self.variables().contains_key(k) && !(self.variables()[k].parent matches Some(
                    GdbStateNodeId::VarObject(_),
                )) ==> exists|i: int| 0 <= i < r@.len() && (#[trigger] r@[i]).0@ == k,
            forall|a: int, b: int| 0 <= a < b < r@.len() ==> (#[trigger] r@[a]).0@ != (#[trigger] r@[b]).0@,
    {
        let mut r: Vec<VariableObject> = Vec::new();
        // The entry that each handle was taken from
        let ghost mut from: Seq<int> = Seq::empty();
        let mut j: usize = 0;
        while j < self.variables.len()
            invariant
                self.wf(),
                j <= self.variables@.len(),
                from.len() == r@.len(),
                forall|a: int, b: int| 0 <= a < b < from.len() ==> #[trigger] from[a] < #[trigger] from[b],
                forall|i: int|
                    0 <= i < r@.len() ==> 0 <= #[trigger] from[i] < j && r@[i].0@ == self.variables@[from[i]].0.0@
                        && !(self.variables@[from[i]].1.parent matches Some(GdbStateNodeId::VarObject(_))),
                forall|x: int|
                    0 <= x < j && !((#[trigger] self.variables@[x]).1.parent matches Some(GdbStateNodeId::VarObject(_)))
                        ==> exists|i: int| 0 <= i < r@.len() && (#[trigger] r@[i]).0@ == self.variables@[x].0.0@,
            decreases self.variables@.len() - j,
        {
            let ghost before = r@;
            if self.variables[j].1.is_top_level() {
                r.push(VariableObject(self.variables[j].0.0.clone()));
                proof {
                    from = from.push(j as int);
                    assert(r@[r@.len() - 1].0@ == self.variables@[j as int].0.0@);
                    assert forall|i: int| 0 <= i < r@.len() implies 0 <= #[trigger] from[i] < j + 1 && r@[i].0@
                        == self.variables@[from[i]].0.0@ && !(self.variables@[from[i]].1.parent matches Some(
                        GdbStateNodeId::VarObject(_),
                    )) by {
                        if i < before.len() {
                            assert(r@[i] == before[i]);
                        }
                    }
                    assert forall|x: int|
                        0 <= x < j + 1 && !((#[trigger] self.variables@[x]).1.parent matches Some(GdbStateNodeId::VarObject(_)))
                            implies exists|i: int| 0 <= i < r@.len() && (#[trigger] r@[i]).0@ == self.variables@[x].0.0@ by {
                        if x < j {
                            let i = choose|i: int| 0 <= i < before.len() && (#[trigger] before[i]).0@ == self.variables@[x].0.0@;
                            assert(r@[i] == before[i]);
                        } else {
                            assert(r@[r@.len() - 1].0@ == self.variables@[x].0.0@);
                        }
                    }
                }
            }
            j += 1;
        }
        proof {
            assert forall|i: int|
                0 <= i < r@.len() implies self.variables().contains_key((#[trigger] r@[i]).0@) && !(self.variables()[r@[i].0@].parent matches Some(
                    GdbStateNodeId::VarObject(_),
                )) by {
                assert(0 <= from[i] < j);
                lemma_key_position_unique(self.variables@, from[i]);
            }
            assert forall|a: int, b: int| 0 <= a < b < r@.len() implies (#[trigger] r@[a]).0@ != (#[trigger] r@[b]).0@ by {
                assert(from[a] < from[b]);
                assert(self.variables@[from[a]].0.0@ != self.variables@[from[b]].0.0@);
            }
            assert forall|k: Seq<char>|
                #[trigger] self.variables().contains_key(k) && !(self.variables()[k].parent matches Some(
                    GdbStateNodeId::VarObject(_),
                )) implies exists|i: int| 0 <= i < r@.len() && (#[trigger] r@[i]).0@ == k by {
                let x = key_position(self.variables@, k)->0;
                assert(self.variables@[x].0.0@ == k);
            }
        }
        r
    }

    /// The variable object already created for the target of an address, if any.
    pub fn dereference_of(&self, address: u64) -> (r: Option<VariableObject>)
        requires
            self.wf(),
        ensures
            match r {
                Some(v) => self.addresses().contains_key(address) && self.addresses()[address] == v.0@,
                None => !self.addresses().contains_key(address),
            },
    {
        match self.address_mapping.get(&address) {
            Some(v) => Some(VariableObject(v.0.clone())),
            None => None,
        }
    }

    /// Records the variable object created for the target of an address,
    /// replacing any earlier one.
    pub fn remember_dereference(&mut self, address: u64, var_object: VariableObject)
        requires
            old(self).wf(),
        ensures
            final(self).wf(),
            final(self).root_spec() == old(self).root_spec(),
            final(self).frames() == old(self).frames(),
            final(self).variables() == old(self).variables(),
            final(self).lengths() == old(self).lengths(),
            final(self).addresses() == old(self).addresses().insert(address, var_object.0@),
    {
        let ghost v = var_object.0@;
        self.address_mapping.insert(address, var_object);
        proof {
            assert(self.addresses() =~= old(self).addresses().insert(address, v));
        }
    }

    /// Pushes a new topmost stack frame for a function and links it to the
    /// frame below it (`next`), or to the root (`main`) if it is the first;
    /// returns its index.
    pub fn push_frame(&mut self, func: String) -> (r: usize)
        requires
            old(self).wf(),
            old(self).frames().len() < usize::MAX,
        ensures
            final(self).wf(),
            r == old(self).frames().len(),
            final(self).variables() == old(self).variables(),
            final(self).lengths() == old(self).lengths(),
            final(self).address_entries() == old(self).address_entries(),
            final(self).frames().len() == old(self).frames().len() + 1,
            final(self).frames()[r as int].type_class == NodeTypeClass::Frame,
            final(self).frames()[r as int].type_string == Some(func),
            final(self).frames()[r as int].successors@.len() == 0,
            final(self).frames()[r as int].value is None,
            r == 0 ==> final(self).root_spec().successors@ == old(self).root_spec().successors@.push(
                (EdgeLabel::Main, GdbStateNodeId::Frame(0)),
            ) && final(self).frames().drop_last() == old(self).frames(),
            r == 0 ==> final(self).root_spec().type_class == old(self).root_spec().type_class,
            r > 0 ==> final(self).root_spec() == old(self).root_spec() && final(self).frames()[r - 1].successors@
                == old(self).frames()[r - 1].successors@.push((EdgeLabel::Next, GdbStateNodeId::Frame(r))),
            r > 0 ==> final(self).frames()[r - 1].type_string == old(self).frames()[r - 1].type_string
                && final(self).frames()[r - 1].type_class == old(self).frames()[r - 1].type_class
                && final(self).frames()[r - 1].value == old(self).frames()[r - 1].value,
            r > 0 ==> forall|j: int| 0 <= j < r - 1 ==> #[trigger] final(self).frames()[j] == old(self).frames()[j],
    {
        let frame_index = self.stack_trace.len();
        let mut frame_node = GdbStateNode::new(NodeTypeClass::Frame);
        frame_node.type_string = Some(func);
        if frame_index == 0 {
            self.root_node.successors.push((EdgeLabel::Main, GdbStateNodeId::Frame(0)));
            self.stack_trace.push(frame_node);
            proof {
                assert(self.stack_trace@.drop_last() =~= old(self).stack_trace@);
            }
        } else {
            let mut below = self.stack_trace.pop().unwrap();
            below.successors.push((EdgeLabel::Next, GdbStateNodeId::Frame(frame_index)));
            self.stack_trace.push(below);
            self.stack_trace.push(frame_node);
            proof {
                assert forall|j: int| 0 <= j < self.stack_trace@.len() implies (#[trigger] self.stack_trace@[j]).type_string is Some by {
                    if j < frame_index - 1 {
                        assert(self.stack_trace@[j] == old(self).stack_trace@[j]);
                    }
                }
            }
        }
        frame_index
    }

    /// Pops the topmost stack frame.
    pub fn pop_stack_frame(&mut self)
        requires
            old(self).wf(),
            old(self).frames().len() > 0,
        ensures
            final(self).wf(),
            final(self).frames() == old(self).frames().drop_last(),
            final(self).root_spec() == old(self).root_spec(),
            final(self).variable_entries() == old(self).variable_entries(),
            final(self).length_entries() == old(self).length_entries(),
            final(self).address_entries() == old(self).address_entries(),
    {
        self.stack_trace.pop();
    }

    /// Drops the frames from `update_index` up and unlinks the last frame
    /// that stays from them (or the root, if none stays).
    pub fn drop_stack_frames_after(&mut self, update_index: usize)
        requires
            old(self).wf(),
            update_index <= old(self).frames().len(),
        ensures
            final(self).wf(),
            final(self).variables() == old(self).variables(),
            final(self).lengths() == old(self).lengths(),
            final(self).address_entries() == old(self).address_entries(),
            final(self).frames().len() == update_index,
            update_index == 0 ==> final(self).root_spec().successors@ == match first_edge_index(
                edges_view(old(self).root_spec().successors@),
                SpecEdgeLabel::Main,
            ) {
                Some(k) => super::state::swap_removed(old(self).root_spec().successors@, k),
                None => old(self).root_spec().successors@,
            },
            update_index == 0 ==> final(self).root_spec().type_class == old(self).root_spec().type_class,
            update_index > 0 ==> final(self).root_spec() == old(self).root_spec(),
            update_index > 0 ==> forall|j: int|
                0 <= j < update_index - 1 ==> #[trigger] final(self).frames()[j] == old(self).frames()[j],
            update_index > 0 ==> final(self).frames()[update_index - 1].successors@ == match first_edge_index(
                edges_view(old(self).frames()[update_index - 1].successors@),
                SpecEdgeLabel::Next,
            ) {
                Some(k) => super::state::swap_removed(old(self).frames()[update_index - 1].successors@, k),
                None => old(self).frames()[update_index - 1].successors@,
            },
            update_index > 0 ==> final(self).frames()[update_index - 1].type_string == old(self).frames()[update_index - 1].type_string,
    {
        while self.stack_trace.len() > update_index
            invariant
                self.wf(),
                update_index <= self.stack_trace@.len() <= old(self).stack_trace@.len(),
                self.stack_trace@ == old(self).stack_trace@.take(self.stack_trace@.len() as int),
                self.root_node == old(self).root_node,
                self.variables@ == old(self).variables@,
                self.length_nodes@ == old(self).length_nodes@,
                self.address_mapping@ == old(self).address_mapping@,
            decreases self.stack_trace.len(),
        {
            self.pop_stack_frame();
            proof {
                assert(self.stack_trace@ =~= old(self).stack_trace@.take(self.stack_trace@.len() as int));
            }
        }
        if update_index == 0 {
            self.root_node.remove_successor(&EdgeLabel::Main);
        } else {
            let mut frame = self.stack_trace.pop().unwrap();
            frame.remove_successor(&EdgeLabel::Next);
            self.stack_trace.push(frame);
            proof {
                assert forall|j: int| 0 <= j < self.stack_trace@.len() implies (#[trigger] self.stack_trace@[j]).type_string is Some by {
                    if j < update_index - 1 {
                        assert(self.stack_trace@[j] == old(self).stack_trace@[j]);
                    }
                }
            }
        }
    }

    /// The local variables that a stack frame lacks: for each name among
    /// `locals`, in lexicographic order, the edge to the most recently declared
    /// variable of that name (its discriminator counts the variables that it
    /// shadows), where the frame has no such edge yet.
    pub fn locals_to_create(&self, frame_index: usize, locals: &Vec<LocalVariable>) -> (r: Vec<(String, EdgeLabel)>)
        requires
            frame_index < self.frames().len(),
        ensures
            forall|i: int, j: int| 0 <= i < j < r@.len() ==> lex_lt(r@[i].0@, r@[j].0@),
            forall|i: int|
                0 <= i < r@.len() ==> {
                    let n = occurrences(local_names(locals@), (#[trigger] r@[i]).0@);
                    &&& n >= 1
                    &&& r@[i].1@ == SpecEdgeLabel::Named(r@[i].0@, (n - 1) as usize)
                    &&& first_edge_index(edges_view(self.frames()[frame_index as int].successors@), r@[i].1@) is None
                },
            forall|k: int|
                0 <= k < locals@.len() && first_edge_index(
                    edges_view(self.frames()[frame_index as int].successors@),
                    SpecEdgeLabel::Named(
                        local_names(locals@)[k],
                        (occurrences(local_names(locals@), local_names(locals@)[k]) - 1) as usize,
                    ),
                ) is None ==> exists|i: int| 0 <= i < r@.len() && (#[trigger] r@[i]).0@ == #[trigger] local_names(locals@)[k],
    {
        let groups = group_local_names(locals);
        let ghost names = local_names(locals@);
        let ghost fe = edges_view(self.frames()[frame_index as int].successors@);
        let mut r: Vec<(String, EdgeLabel)> = Vec::new();
        let ghost mut from: Seq<int> = Seq::empty();
        let mut j: usize = 0;
        while j < groups.len()
            invariant
                j <= groups@.len(),
                frame_index < self.frames().len(),
                fe == edges_view(self.frames()[frame_index as int].successors@),
                names == local_names(locals@),
                forall|a: int, b: int| 0 <= a < b < groups@.len() ==> lex_lt(groups@[a].0@, groups@[b].0@),
                forall|a: int| 0 <= a < groups@.len() ==> occurrences(names, (#[trigger] groups@[a]).0@) == groups@[a].1 + 1,
                from.len() == r@.len(),
                forall|a: int, b: int| 0 <= a < b < from.len() ==> from[a] < from[b],
                forall|i: int|
                    0 <= i < r@.len() ==> {
                        &&& 0 <= #[trigger] from[i] < j
                        &&& r@[i].0@ == groups@[from[i]].0@
                        &&& r@[i].1@ == SpecEdgeLabel::Named(r@[i].0@, groups@[from[i]].1)
                        &&& first_edge_index(fe, r@[i].1@) is None
                    },
                forall|g: int|
                    0 <= g < j && first_edge_index(fe, SpecEdgeLabel::Named((#[trigger] groups@[g]).0@, groups@[g].1)) is None
                        ==> exists|i: int| 0 <= i < r@.len() && r@[i].0@ == groups@[g].0@,
            decreases groups@.len() - j,
        {
            let name = groups[j].0.clone();
            let edge = EdgeLabel::Named(groups[j].0.clone(), groups[j].1);
            if !self.frame_has_edge(frame_index, &edge) {
                let ghost before = r@;
                r.push((name, edge));
                proof {
                    from = from.push(j as int);
                    assert forall|i: int|
                        0 <= i < r@.len() implies {
                            &&& 0 <= #[trigger] from[i] < j + 1
                            &&& r@[i].0@ == groups@[from[i]].0@
                            &&& r@[i].1@ == SpecEdgeLabel::Named(r@[i].0@, groups@[from[i]].1)
                            &&& first_edge_index(fe, r@[i].1@) is None
                        } by {
                        if i < before.len() {
                            assert(r@[i] == before[i]);
                        }
                    }
                    assert forall|g: int|
                        0 <= g < j + 1 && first_edge_index(fe, SpecEdgeLabel::Named((#[trigger] groups@[g]).0@, groups@[g].1)) is None
                            implies exists|i: int| 0 <= i < r@.len() && r@[i].0@ == groups@[g].0@ by {
                        if g < j {
                            let i = choose|i: int| 0 <= i < before.len() && before[i].0@ == groups@[g].0@;
                            assert(r@[i] == before[i]);
                        } else {
                            assert(r@[r@.len() - 1].0@ == groups@[g].0@);
                        }
                    }
                }
            }
            j += 1;
        }
        proof {
            assert forall|i: int, b: int| 0 <= i < b < r@.len() implies lex_lt(r@[i].0@, r@[b].0@) by {
                assert(from[i] < from[b]);
            }
            assert forall|i: int|
                0 <= i < r@.len() implies {
                    let n = occurrences(local_names(locals@), (#[trigger] r@[i]).0@);
                    &&& n >= 1
                    &&& r@[i].1@ == SpecEdgeLabel::Named(r@[i].0@, (n - 1) as usize)
                    &&& first_edge_index(edges_view(self.frames()[frame_index as int].successors@), r@[i].1@) is None
                } by {
                assert(occurrences(names, groups@[from[i]].0@) == groups@[from[i]].1 + 1);
            }
            assert forall|k: int|
                0 <= k < locals@.len() && first_edge_index(
                    edges_view(self.frames()[frame_index as int].successors@),
                    SpecEdgeLabel::Named(
                        local_names(locals@)[k],
                        (occurrences(local_names(locals@), local_names(locals@)[k]) - 1) as usize,
                    ),
                ) is None implies exists|i: int| 0 <= i < r@.len() && (#[trigger] r@[i]).0@ == #[trigger] local_names(locals@)[k] by {
                let g = choose|g: int| 0 <= g < groups@.len() && (#[trigger] groups@[g]).0@ == names[k];
                assert(occurrences(names, groups@[g].0@) == groups@[g].1 + 1);
                assert(first_edge_index(fe, SpecEdgeLabel::Named(groups@[g].0@, groups@[g].1)) is None);
            }
        }
        r
    }

    /// True if a stack frame has an edge with this label.
    pub fn frame_has_edge(&self, frame_index: usize, edge: &EdgeLabel) -> (r: bool)
        requires
            frame_index < self.frames().len(),
        ensures
            r == first_edge_index(edges_view(self.frames()[frame_index as int].successors@), edge@) is Some,
    {
        match self.stack_trace[frame_index].get_successor(edge) {
            Some(_) => true,
            None => false,
        }
    }

    /// Adds an edge to a stack frame.
    pub fn add_frame_successor(&mut self, frame_index: usize, label: EdgeLabel, target: GdbStateNodeId)
        requires
            old(self).wf(),
            frame_index < old(self).frames().len(),
        ensures
            final(self).wf(),
            final(self).root_spec() == old(self).root_spec(),
            final(self).variables() == old(self).variables(),
            final(self).lengths() == old(self).lengths(),
            final(self).address_entries() == old(self).address_entries(),
            final(self).frames().len() == old(self).frames().len(),
            forall|j: int| 0 <= j < old(self).frames().len() && j != frame_index ==> #[trigger] final(self).frames()[j] == old(self).frames()[j],
            final(self).frames()[frame_index as int].successors@ == old(self).frames()[frame_index as int].successors@.push((label, target)),
            final(self).frames()[frame_index as int].type_string == old(self).frames()[frame_index as int].type_string,
            final(self).frames()[frame_index as int].type_class == old(self).frames()[frame_index as int].type_class,
            final(self).frames()[frame_index as int].value == old(self).frames()[frame_index as int].value,
    {
        let mut frame = self.stack_trace.remove(frame_index);
        frame.successors.push((label, target));
        self.stack_trace.insert(frame_index, frame);
        proof {
            assert forall|j: int| 0 <= j < self.stack_trace@.len() implies (#[trigger] self.stack_trace@[j]).type_string is Some by {
                if j != frame_index {
                    assert(self.stack_trace@[j] == old(self).stack_trace@[j]);
                }
            }
        }
    }

    /// Adds a named edge to the root node (a global variable); its
    /// discriminator counts the edges of that name the root already has.
    pub fn add_root_named_successor(&mut self, name: String, target: GdbStateNodeId)
        requires
            old(self).wf(),
        ensures
            final(self).wf(),
            final(self).frames() == old(self).frames(),
            final(self).variables() == old(self).variables(),
            final(self).lengths() == old(self).lengths(),
            final(self).address_entries() == old(self).address_entries(),
            final(self).root_spec().successors@ == old(self).root_spec().successors@.push(
                (
                    EdgeLabel::Named(
                        name,
                        super::state::named_count(edges_view(old(self).root_spec().successors@), name@) as usize,
                    ),
                    target,
                ),
            ),
            final(self).root_spec().type_class == old(self).root_spec().type_class,
    {
        self.root_node.add_named_successor(name, target);
    }

    /// Index of the lowest cached frame that the new stack trace no longer
    /// has: the new trace lists frames from the top, the cached one from the
    /// bottom, and frames are compared by function name. When all frames that
    /// both have agree, it is the number of frames in the shorter one.
    pub fn first_changed_frame(&self, new_frames: &Vec<StackFrame>) -> (r: usize)
        requires
            self.wf(),
        ensures
            r as int == first_mismatch(self.frames(), new_frames@, 0),
            r <= self.frames().len(),
            r <= new_frames@.len(),
            forall|j: int| 0 <= j < r ==> #[trigger] frame_still_runs(self.frames(), new_frames@, j),
            r < self.frames().len() && r < new_frames@.len() ==> !frame_still_runs(self.frames(), new_frames@, r as int),
    {
        proof {
            lemma_first_mismatch_bound(self.frames(), new_frames@, 0);
        }
        let c = self.stack_trace.len();
        let f = new_frames.len();
        let m = if c < f { c } else { f };
        let mut i: usize = 0;
        while i < m
            invariant
                c == self.frames().len(),
                f == new_frames@.len(),
                m == if c < f { c } else { f },
                i <= m,
                self.wf(),
                first_mismatch(self.frames(), new_frames@, i as int) == first_mismatch(self.frames(), new_frames@, 0),
            decreases m - i,
        {
            let cached = &self.stack_trace[i];
            assert(cached.type_string is Some);
            let same = match &cached.type_string {
                Some(t) => str_eq(t.as_str(), new_frames[f - 1 - i].func.as_str()),
                None => false,
            };
            if !same {
                proof {
                    lemma_first_changed_frame_is_lowest_change(self.frames(), new_frames@);
                }
                return i;
            }
            i += 1;
        }
        proof {
            lemma_first_changed_frame_is_lowest_change(self.frames(), new_frames@);
        }
        m
    }

    /// Creates the node of a variable object under its name, replacing any
    /// node of that name: an elementary value whose type name is preprocessed
    /// and whose value is read from the text GDB gave.
    pub fn create_variable_node(&mut self, var_object: VariableObjectData, parent: Option<GdbStateNodeId>)
        requires
            old(self).wf(),
        ensures
            final(self).wf(),
            final(self).root_spec() == old(self).root_spec(),
            final(self).frames() == old(self).frames(),
            final(self).lengths() == old(self).lengths(),
            final(self).addresses() == old(self).addresses(),
            final(self).variables().dom() == old(self).variables().dom().insert(var_object.object.0@),
            forall|k: Seq<char>|
                k != var_object.object.0@ && #[trigger] old(self).variables().contains_key(k)
                    ==> final(self).variables()[k] == old(self).variables()[k],
            ({
                let n = final(self).variables()[var_object.object.0@];
                &&& n.node.type_class == NodeTypeClass::Atom
                &&& n.node.type_string matches Some(t) && t@ == spec_preprocess_type(
                    var_object.type_string@,
                )
                &&& n.node.successors@.len() == 0
                &&& n.node.value == match var_object.value {
                    Some(v) => spec_node_value(v@),
                    None => None,
                }
                &&& n.parent == parent
                &&& n.address is None
                &&& n.referers@.len() == 0
            }),
    {
        let mut node = GdbStateNode::new(NodeTypeClass::Atom);
        node.type_string = Some(preprocess_type_name(var_object.type_string));
        node.value = match &var_object.value {
            Some(v) => parse_node_value(v.as_str()),
            None => None,
        };
        let entry = GdbStateNodeForVariable::new(node, parent);
        upsert(&mut self.variables, var_object.object, entry);
    }
}

/// The entries as a map from their keys.
pub open spec fn entries_map<T>(entries: Seq<(VariableObject, T)>) -> Map<Seq<char>, T> {
    Map::new(
        |k: Seq<char>| key_position(entries, k) is Some,
        |k: Seq<char>| entries[key_position(entries, k)->0].1,
    )
}

/// Sets the value under a key, adding an entry if there is none.
fn upsert<T>(entries: &mut Vec<(VariableObject, T)>, key: VariableObject, value: T)
    requires
        keys_unique(old(entries)@),
    ensures
        keys_unique(final(entries)@),
        entries_map(final(entries)@) == entries_map(old(entries)@).insert(key.0@, value),
{
    let ghost old_vars = entries@;
    let ghost kv = key.0@;
    match find_key(entries, key.0.as_str()) {
        Some(k) => {
            entries.set(k, (key, value));
            proof {
                let vars = entries@;
                assert forall|i: int, j: int|
                    0 <= i < vars.len() && 0 <= j < vars.len() && i != j implies (#[trigger] vars[i]).0.0@
                    != (#[trigger] vars[j]).0.0@ by {
                    if i != k && j != k {
                        assert(vars[i] == old_vars[i] && vars[j] == old_vars[j]);
                    } else if i == k {
                        assert(vars[j] == old_vars[j]);
                    } else {
                        assert(vars[i] == old_vars[i]);
                    }
                }
                assert forall|s: Seq<char>| #[trigger] key_position(vars, s) is Some <==> (key_position(old_vars, s) is Some || s == kv) by {
                    if key_position(vars, s) is Some {
                        let i = key_position(vars, s)->0;
                        if i != k {
                            assert(old_vars[i] == vars[i]);
                            lemma_key_position_unique(old_vars, i);
                        }
                    }
                    if key_position(old_vars, s) is Some {
                        let i = key_position(old_vars, s)->0;
                        if i != k {
                            assert(old_vars[i] == vars[i]);
                        }
                        lemma_key_position_unique(vars, i);
                    }
                    if s == kv {
                        lemma_key_position_unique(vars, k as int);
                    }
                }
                assert(entries_map(vars) =~= entries_map(old_vars).insert(kv, value)) by {
                    assert forall|s: Seq<char>| #[trigger] entries_map(vars).contains_key(s) implies entries_map(vars)[s]
                        == entries_map(old_vars).insert(kv, value)[s] by {
                        if s == kv {
                            lemma_key_position_unique(vars, k as int);
                        } else {
                            let i = key_position(old_vars, s)->0;
                            lemma_key_position_unique(old_vars, i);
                            assert(i != k);
                            assert(vars[i] == old_vars[i]);
                            lemma_key_position_unique(vars, i);
                        }
                    }
                }
            }
        },
        None => {
            entries.push((key, value));
            proof {
                let vars = entries@;
                let n = old_vars.len();
                assert forall|i: int, j: int|
                    0 <= i < vars.len() && 0 <= j < vars.len() && i != j implies (#[trigger] vars[i]).0.0@
                    != (#[trigger] vars[j]).0.0@ by {
                    if i < n && j < n {
                        assert(vars[i] == old_vars[i] && vars[j] == old_vars[j]);
                    } else if i == n {
                        assert(vars[j] == old_vars[j]);
                        if vars[j].0.0@ == kv {
                            assert(old_vars[j].0.0@ == kv);
                        }
                    } else {
                        assert(vars[i] == old_vars[i]);
                        if vars[i].0.0@ == kv {
                            assert(old_vars[i].0.0@ == kv);
                        }
                    }
                }
                assert forall|s: Seq<char>| #[trigger] key_position(vars, s) is Some <==> (key_position(old_vars, s) is Some || s == kv) by {
                    if key_position(vars, s) is Some {
                        let i = key_position(vars, s)->0;
                        if i < n {
                            assert(old_vars[i] == vars[i]);
                            lemma_key_position_unique(old_vars, i);
                        }
                    }
                    if key_position(old_vars, s) is Some {
                        let i = key_position(old_vars, s)->0;
                        assert(old_vars[i] == vars[i]);
                        lemma_key_position_unique(vars, i);
                    }
                    if s == kv {
                        lemma_key_position_unique(vars, n as int);
                    }
                }
                assert(entries_map(vars) =~= entries_map(old_vars).insert(kv, value)) by {
                    assert forall|s: Seq<char>| #[trigger] entries_map(vars).contains_key(s) implies entries_map(vars)[s]
                        == entries_map(old_vars).insert(kv, value)[s] by {
                        if s == kv {
                            lemma_key_position_unique(vars, n as int);
                        } else {
                            let i = key_position(old_vars, s)->0;
                            lemma_key_position_unique(old_vars, i);
                            assert(vars[i] == old_vars[i]);
                            lemma_key_position_unique(vars, i);
                        }
                    }
                }
            }
        },
    }
}

/// Removes the entry with this key, if there is one, and returns it.
fn remove_key<T>(entries: &mut Vec<(VariableObject, T)>, key: &str) -> (r: Option<(VariableObject, T)>)
    requires
        keys_unique(old(entries)@),
    ensures
        keys_unique(final(entries)@),
        entries_map(final(entries)@) == entries_map(old(entries)@).remove(key@),
        match r {
            Some(e) => e.0.0@ == key@ && entries_map(old(entries)@).contains_key(key@) && e.1
                == entries_map(old(entries)@)[key@] && final(entries)@.len() + 1 == old(entries)@.len(),
            None => !entries_map(old(entries)@).contains_key(key@) && final(entries)@ == old(entries)@,
        },
{
    let ghost old_vars = entries@;
    match find_key(entries, key) {
        Some(k) => {
            let e = entries.remove(k);
            proof {
                let vars = entries@;
                assert forall|i: int| 0 <= i < vars.len() implies #[trigger] vars[i] == if i < k {
                    old_vars[i]
                } else {
                    old_vars[i + 1]
                } by {}
                assert forall|i: int, j: int|
                    0 <= i < vars.len() && 0 <= j < vars.len() && i != j implies (#[trigger] vars[i]).0.0@
                    != (#[trigger] vars[j]).0.0@ by {
                    let oi = if i < k { i } else { i + 1 };
                    let oj = if j < k { j } else { j + 1 };
                    assert(vars[i] == old_vars[oi] && vars[j] == old_vars[oj]);
                }
                assert forall|s: Seq<char>| #[trigger] key_position(vars, s) is Some <==> (key_position(old_vars, s) is Some && s != key@) by {
                    if key_position(vars, s) is Some {
                        let i = key_position(vars, s)->0;
                        let oi = if i < k { i } else { i + 1 };
                        assert(vars[i] == old_vars[oi]);
                        lemma_key_position_unique(old_vars, oi);
                        lemma_key_position_unique(old_vars, k as int);
                    }
                    if key_position(old_vars, s) is Some && s != key@ {
                        let oi = key_position(old_vars, s)->0;
                        assert(oi != k);
                        let i = if oi < k { oi } else { oi - 1 };
                        assert(vars[i] == old_vars[oi]);
                        lemma_key_position_unique(vars, i);
                    }
                }
                lemma_key_position_unique(old_vars, k as int);
                assert(entries_map(vars) =~= entries_map(old_vars).remove(key@)) by {
                    assert forall|s: Seq<char>| #[trigger] entries_map(vars).contains_key(s) implies entries_map(vars)[s]
                        == entries_map(old_vars)[s] by {
                        let i = key_position(vars, s)->0;
                        let oi = if i < k { i } else { i + 1 };
                        assert(vars[i] == old_vars[oi]);
                        lemma_key_position_unique(old_vars, oi);
                        lemma_key_position_unique(vars, i);
                    }
                }
            }
            Some(e)
        },
        None => {
            proof {
                assert(entries_map(old_vars).remove(key@) =~= entries_map(old_vars));
            }
            None
        },
    }
}

/// With unique keys, the position of an entry's key is that entry.
proof fn lemma_key_position_unique<T>(entries: Seq<(VariableObject, T)>, i: int)
    requires
        keys_unique(entries),
        0 <= i < entries.len(),
    ensures
        key_position(entries, entries[i].0.0@) == Some(i),
{
    let key = entries[i].0.0@;
    assert(entries[i].0.0@ == key);
    let c = choose|j: int| 0 <= j < entries.len() && (#[trigger] entries[j]).0.0@ == key;
    if c != i {
        assert(entries[c].0.0@ != entries[i].0.0@);
    }
}

/// Following a path made of two parts leads where following the first part,
/// then the second part from the node it reached, leads.
pub proof fn lemma_path_concatenation(
    graph: GdbStateGraph,
    origin: SpecNodeId,
    first: Seq<SpecEdgeLabel>,
    second: Seq<SpecEdgeLabel>,
)
    ensures
        graph.id_at(origin, first + second) == match graph.id_at(origin, first) {
            Some(middle) => graph.id_at(middle, second),
            None => None,
        },
    decreases first.len(),
{
    if first.len() == 0 {
        assert(first + second =~= second);
    } else {
        assert((first + second).drop_first() =~= first.drop_first() + second);
        assert((first + second)[0] == first[0]);
        match graph.node_spec(origin) {
            None => {},
            Some(n) => match first_edge_index(edges_view(n.successors@), first[0]) {
                None => {},
                Some(i) => {
                    lemma_path_concatenation(graph, edges_view(n.successors@)[i].1, first.drop_first(), second);
                },
            },
        }
    }
}

/// An update whose answers are the same as before keeps the graph: GDB lists
/// the functions of the cached frames again, so no frame has changed and none
/// is dropped or pushed; the topmost frame, which has no edge to a next one,
/// keeps its edges when the stack is cut after it; and where it has an edge
/// for each of the locals that GDB lists, no local is created for it (no list
/// of locals that the frame lacks, as `locals_to_create` gives, holds one).
pub proof fn lemma_same_answers_keep_the_graph(
    cached: Seq<GdbStateNode>,
    fresh: Seq<StackFrame>,
    locals: Seq<LocalVariable>,
    created: Seq<(String, EdgeLabel)>,
)
    requires
        cached.len() == fresh.len(),
        cached.len() > 0,
        forall|j: int|
            0 <= j < cached.len() ==> ((#[trigger] cached[j]).type_string matches Some(t) && t@ == fresh[fresh.len()
                - 1 - j].func@),
        first_edge_index(edges_view(cached.last().successors@), SpecEdgeLabel::Next) is None,
        forall|k: int|
            0 <= k < locals.len() ==> first_edge_index(
                edges_view(cached.last().successors@),
                SpecEdgeLabel::Named(
                    #[trigger] local_names(locals)[k],
                    (occurrences(local_names(locals), local_names(locals)[k]) - 1) as usize,
                ),
            ) is Some,
        forall|i: int|
            0 <= i < created.len() ==> {
                let n = occurrences(local_names(locals), (#[trigger] created[i]).0@);
                &&& n >= 1
                &&& created[i].1@ == SpecEdgeLabel::Named(created[i].0@, (n - 1) as usize)
                &&& first_edge_index(edges_view(cached.last().successors@), created[i].1@) is None
            },
    ensures
        first_mismatch(cached, fresh, 0) == cached.len(),
        (match first_edge_index(edges_view(cached.last().successors@), SpecEdgeLabel::Next) {
            Some(k) => super::state::swap_removed(cached.last().successors@, k),
            None => cached.last().successors@,
        }) == cached.last().successors@,
        created.len() == 0,
{
    lemma_unchanged_stack_is_kept(cached, fresh, 0);
    if created.len() > 0 {
        let name = created[0].0@;
        let names = local_names(locals);
        assert(occurrences(names, name) >= 1);
        let k = lemma_occurring_name(names, name);
        assert(names[k] == name);
    }
}

/// A name that occurs in a list of names stands at some position of it.
proof fn lemma_occurring_name(names: Seq<Seq<char>>, name: Seq<char>) -> (k: int)
    requires
        occurrences(names, name) >= 1,
    ensures
        0 <= k < names.len(),
        names[k] == name,
    decreases names.len(),
{
    assert(names.len() > 0);
    if names.last() == name {
        names.len() - 1
    } else {
        lemma_occurring_name(names.drop_last(), name)
    }
}

} // verus!
