//! Program state graph backed by a GDB session: its nodes, their identifiers,
//! and lookups in it.

use crate::gdbmi::types::VariableObject;
use crate::model::state::{EdgeLabel, NodeId, NodeTypeClass, NodeValue, SpecEdgeLabel};
use crate::text::str_eq;
use vstd::prelude::*;

verus! {

/// Identifiers of state nodes of a [`GdbStateGraph`].
#[derive(Clone, PartialEq, Eq, PartialOrd, Ord, Debug, Hash)]
pub enum GdbStateNodeId {
    /// Identifier of the root node.
    Root,
    /// Identifier of a stack frame node by its index from the bottom of the stack.
    Frame(usize),
    /// Identifier of a node backed by a GDB/MI variable object.
    VarObject(VariableObject),
    /// Identifier of the length pseudo-node of a variable object node.
    Length(VariableObject),
}

/// Model of a node identifier: variable object names are character sequences.
pub enum SpecNodeId {
    Root,
    Frame(usize),
    VarObject(Seq<char>),
    Length(Seq<char>),
}

impl View for GdbStateNodeId {
    type V = SpecNodeId;

    open spec fn view(&self) -> SpecNodeId {
        match self {
            GdbStateNodeId::Root => SpecNodeId::Root,
            GdbStateNodeId::Frame(i) => SpecNodeId::Frame(*i),
            GdbStateNodeId::VarObject(v) => SpecNodeId::VarObject(v.0@),
            GdbStateNodeId::Length(v) => SpecNodeId::Length(v.0@),
        }
    }
}

impl NodeId for GdbStateNodeId {
    fn is_same(&self, other: &Self) -> (r: bool) {
        self.same_as(other)
    }

    fn copied(&self) -> (r: Self) {
        self.duplicate()
    }
}

impl GdbStateNodeId {
    /// Tests two identifiers for equality.
    pub fn same_as(&self, other: &GdbStateNodeId) -> (r: bool)
        ensures
            r == (self@ == other@),
    {
        match (self, other) {
            (GdbStateNodeId::Root, GdbStateNodeId::Root) => true,
            (GdbStateNodeId::Frame(a), GdbStateNodeId::Frame(b)) => *a == *b,
            (GdbStateNodeId::VarObject(a), GdbStateNodeId::VarObject(b)) => str_eq(
                a.0.as_str(),
                b.0.as_str(),
            ),
            (GdbStateNodeId::Length(a), GdbStateNodeId::Length(b)) => str_eq(a.0.as_str(), b.0.as_str()),
            _ => false,
        }
    }

    /// A copy of the identifier.
    pub fn duplicate(&self) -> (r: GdbStateNodeId)
        ensures
            r@ == self@,
    {
        match self {
            GdbStateNodeId::Root => GdbStateNodeId::Root,
            GdbStateNodeId::Frame(i) => GdbStateNodeId::Frame(*i),
            GdbStateNodeId::VarObject(v) => GdbStateNodeId::VarObject(VariableObject(v.0.clone())),
            GdbStateNodeId::Length(v) => GdbStateNodeId::Length(VariableObject(v.0.clone())),
        }
    }
}

/// Node of a [`GdbStateGraph`].
#[derive(Debug)]
pub struct GdbStateNode {
    /// Category of the node's type.
    pub type_class: NodeTypeClass,
    /// Name of the node's type, if known.
    pub type_string: Option<String>,
    /// Outgoing edges and the nodes they lead to.
    pub successors: Vec<(EdgeLabel, GdbStateNodeId)>,
    /// Elementary value of the node, if it has one.
    pub value: Option<NodeValue>,
}

/// Model of the outgoing edges of a node.
pub open spec fn edges_view(s: Seq<(EdgeLabel, GdbStateNodeId)>) -> Seq<(SpecEdgeLabel, SpecNodeId)> {
    s.map_values(|p: (EdgeLabel, GdbStateNodeId)| (p.0@, p.1@))
}

/// Number of `Named` edges with this name.
pub open spec fn named_count(s: Seq<(SpecEdgeLabel, SpecNodeId)>, name: Seq<char>) -> nat
    decreases s.len(),
{
    if s.len() == 0 {
        0
    } else {
        named_count(s.drop_last(), name) + if s.last().0 matches SpecEdgeLabel::Named(n, _) && n == name {
            1nat
        } else {
            0nat
        }
    }
}

/// Index of the first edge with this label.
pub open spec fn first_edge_index(s: Seq<(SpecEdgeLabel, SpecNodeId)>, label: SpecEdgeLabel) -> Option<int>
    decreases s.len(),
{
    if s.len() == 0 {
        None
    } else if s[0].0 == label {
        Some(0)
    } else {
        match first_edge_index(s.skip(1), label) {
            Some(i) => Some(i + 1),
            None => None,
        }
    }
}

/// Index of the first edge that leads to this node.
pub open spec fn first_target_index(s: Seq<(SpecEdgeLabel, SpecNodeId)>, target: SpecNodeId) -> Option<int>
    decreases s.len(),
{
    if s.len() == 0 {
        None
    } else if s[0].1 == target {
        Some(0)
    } else {
        match first_target_index(s.skip(1), target) {
            Some(i) => Some(i + 1),
            None => None,
        }
    }
}

/// The sequence after `Vec::swap_remove` of index `i`: the last element takes its place.
pub open spec fn swap_removed<T>(s: Seq<T>, i: int) -> Seq<T> {
    s.update(i, s.last()).drop_last()
}

/// True if, for every name, the `Named` edges with that name carry the
/// discriminators `0, 1, ...` in the order they were added, so that no two
/// edges have the same label.
pub open spec fn named_edges_sequential(s: Seq<(SpecEdgeLabel, SpecNodeId)>) -> bool {
    forall|i: int|
        0 <= i < s.len() ==> match #[trigger] s[i].0 {
            SpecEdgeLabel::Named(n, d) => d == named_count(s.take(i), n),
            _ => true,
        }
}

proof fn lemma_first_edge_index(s: Seq<(SpecEdgeLabel, SpecNodeId)>, label: SpecEdgeLabel, k: int)
    requires
        0 <= k <= s.len(),
        forall|j: int| 0 <= j < k ==> s[j].0 != label,
    ensures
        k < s.len() && s[k].0 == label ==> first_edge_index(s, label) == Some(k),
        k == s.len() ==> first_edge_index(s, label) is None,
    decreases k,
{
    if k > 0 {
        lemma_first_edge_index(s.skip(1), label, k - 1);
    }
}

proof fn lemma_first_target_index(s: Seq<(SpecEdgeLabel, SpecNodeId)>, target: SpecNodeId, k: int)
    requires
        0 <= k <= s.len(),
        forall|j: int| 0 <= j < k ==> s[j].1 != target,
    ensures
        k < s.len() && s[k].1 == target ==> first_target_index(s, target) == Some(k),
        k == s.len() ==> first_target_index(s, target) is None,
    decreases k,
{
    if k > 0 {
        lemma_first_target_index(s.skip(1), target, k - 1);
    }
}

impl GdbStateNode {
    /// A node of a type class with no type name, no edges and no value.
    pub fn new(type_class: NodeTypeClass) -> (r: GdbStateNode)
        ensures
            r.type_class == type_class,
            r.type_string is None,
            r.successors@.len() == 0,
            r.value is None,
    {
        GdbStateNode { type_class, type_string: None, successors: Vec::new(), value: None }
    }

    /// Finds the successor along the first edge with this label.
    pub fn get_successor(&self, edge: &EdgeLabel) -> (r: Option<GdbStateNodeId>)
        ensures
            match first_edge_index(edges_view(self.successors@), edge@) {
                Some(i) => r matches Some(id) && id@ == edges_view(self.successors@)[i].1,
                None => r is None,
            },
    {
        let ghost s = edges_view(self.successors@);
        let mut i: usize = 0;
        while i < self.successors.len()
            invariant
                s == edges_view(self.successors@),
                i <= self.successors.len(),
                forall|j: int| 0 <= j < i ==> s[j].0 != edge@,
            decreases self.successors.len() - i,
        {
            if self.successors[i].0.same_as(edge) {
                proof {
                    lemma_first_edge_index(s, edge@, i as int);
                }
                return Some(self.successors[i].1.duplicate());
            }
            i += 1;
        }
        proof {
            lemma_first_edge_index(s, edge@, i as int);
        }
        None
    }

    /// The category of the node's type.
    pub fn node_type_class(&self) -> (r: NodeTypeClass)
        ensures
            r == self.type_class,
    {
        self.type_class
    }

    /// The name of the node's type: only frames, elementary values and
    /// structures report one.
    pub fn node_type_id(&self) -> (r: Option<&str>)
        ensures
            match self.type_class {
                NodeTypeClass::Atom | NodeTypeClass::Struct | NodeTypeClass::Frame => match self.type_string {
                    Some(t) => r matches Some(x) && x@ == t@,
                    None => r is None,
                },
                _ => r is None,
            },
    {
        match self.type_class {
            NodeTypeClass::Atom | NodeTypeClass::Struct | NodeTypeClass::Frame => match &self.type_string {
                Some(t) => Some(t.as_str()),
                None => None,
            },
            _ => None,
        }
    }

    /// The outgoing edges and the nodes they lead to.
    pub fn successors(&self) -> (r: &Vec<(EdgeLabel, GdbStateNodeId)>)
        ensures
            r == &self.successors,
    {
        &self.successors
    }

    /// The value of the node, if any.
    pub fn value(&self) -> (r: Option<NodeValue>)
        ensures
            r == self.value,
    {
        self.value
    }

    /// Adds an edge named `name` to `successor`; its discriminator is the
    /// number of edges with the same name the node already has.
    pub fn add_named_successor(&mut self, name: String, successor: GdbStateNodeId)
        ensures
            final(self).type_class == old(self).type_class,
            final(self).type_string == old(self).type_string,
            final(self).value == old(self).value,
            final(self).successors@ == old(self).successors@.push(
                (
                    EdgeLabel::Named(
                        name,
                        named_count(edges_view(old(self).successors@), name@) as usize,
                    ),
                    successor,
                ),
            ),
            named_count(edges_view(old(self).successors@), name@) <= usize::MAX,
    {
        let ghost s = edges_view(self.successors@);
        let mut count: usize = 0;
        let mut i: usize = 0;
        while i < self.successors.len()
            invariant
                s == edges_view(self.successors@),
                i <= self.successors.len(),
                self.type_class == old(self).type_class,
                self.type_string == old(self).type_string,
                self.value == old(self).value,
                self.successors@ == old(self).successors@,
                count == named_count(s.take(i as int), name@),
                count <= i,
            decreases self.successors.len() - i,
        {
            proof {
                assert(s.take(i + 1).drop_last() =~= s.take(i as int));
            }
            match &self.successors[i].0 {
                EdgeLabel::Named(n, _) => {
                    if str_eq(n.as_str(), name.as_str()) {
                        count = count + 1;
                    }
                },
                _ => {},
            }
            i += 1;
        }
        proof {
            assert(s.take(i as int) =~= s);
        }
        self.successors.push((EdgeLabel::Named(name, count), successor));
    }

    /// Removes the first edge with this label, moving the last edge into its
    /// place, and returns the node it led to.
    pub fn remove_successor(&mut self, id: &EdgeLabel) -> (r: Option<GdbStateNodeId>)
        ensures
            final(self).type_class == old(self).type_class,
            final(self).type_string == old(self).type_string,
            final(self).value == old(self).value,
            match first_edge_index(edges_view(old(self).successors@), id@) {
                Some(i) => r == Some(old(self).successors@[i].1) && final(self).successors@
                    == swap_removed(old(self).successors@, i),
                None => r is None && final(self).successors@ == old(self).successors@,
            },
    {
        let ghost s = edges_view(self.successors@);
        let mut i: usize = 0;
        while i < self.successors.len()
            invariant
                s == edges_view(self.successors@),
                i <= self.successors.len(),
                self.type_class == old(self).type_class,
                self.type_string == old(self).type_string,
                self.value == old(self).value,
                self.successors@ == old(self).successors@,
                forall|j: int| 0 <= j < i ==> s[j].0 != id@,
            decreases self.successors.len() - i,
        {
            if self.successors[i].0.same_as(id) {
                proof {
                    lemma_first_edge_index(s, id@, i as int);
                }
                let (_, target) = self.successors.swap_remove(i);
                return Some(target);
            }
            i += 1;
        }
        proof {
            lemma_first_edge_index(s, id@, i as int);
        }
        None
    }

    /// Removes the first edge that leads to this node, moving the last edge
    /// into its place, and returns its label.
    pub fn remove_successor_by_id(&mut self, id: &GdbStateNodeId) -> (r: Option<EdgeLabel>)
        ensures
            final(self).type_class == old(self).type_class,
            final(self).type_string == old(self).type_string,
            final(self).value == old(self).value,
            match first_target_index(edges_view(old(self).successors@), id@) {
                Some(i) => r == Some(old(self).successors@[i].0) && final(self).successors@
                    == swap_removed(old(self).successors@, i),
                None => r is None && final(self).successors@ == old(self).successors@,
            },
    {
        let ghost s = edges_view(self.successors@);
        let mut i: usize = 0;
        while i < self.successors.len()
            invariant
                s == edges_view(self.successors@),
                i <= self.successors.len(),
                self.type_class == old(self).type_class,
                self.type_string == old(self).type_string,
                self.value == old(self).value,
                self.successors@ == old(self).successors@,
                forall|j: int| 0 <= j < i ==> s[j].1 != id@,
            decreases self.successors.len() - i,
        {
            if self.successors[i].1.same_as(id) {
                proof {
                    lemma_first_target_index(s, id@, i as int);
                }
                let (label, _) = self.successors.swap_remove(i);
                return Some(label);
            }
            i += 1;
        }
        proof {
            lemma_first_target_index(s, id@, i as int);
        }
        None
    }
}

/// Adding a named edge keeps the discriminators of every name sequential,
/// so the labels of a node's edges stay unique.
pub proof fn lemma_add_named_keeps_sequential(
    s: Seq<(SpecEdgeLabel, SpecNodeId)>,
    name: Seq<char>,
    target: SpecNodeId,
)
    requires
        named_edges_sequential(s),
        named_count(s, name) <= usize::MAX,
    ensures
        named_edges_sequential(
            s.push((SpecEdgeLabel::Named(name, named_count(s, name) as usize), target)),
        ),
{
    let t = s.push((SpecEdgeLabel::Named(name, named_count(s, name) as usize), target));
    assert forall|i: int| 0 <= i < t.len() implies match #[trigger] t[i].0 {
        SpecEdgeLabel::Named(n, d) => d == named_count(t.take(i), n),
        _ => true,
    } by {
        if i < s.len() {
            assert(t.take(i) =~= s.take(i));
            assert(t[i] == s[i]);
        } else {
            assert(t.take(i) =~= s);
        }
    }
}

/// Under sequential discriminators, two edges with the same name have different
/// discriminators: no label occurs twice.
pub proof fn lemma_sequential_labels_unique(s: Seq<(SpecEdgeLabel, SpecNodeId)>, i: int, j: int)
    requires
        named_edges_sequential(s),
        0 <= i < j < s.len(),
        s[i].0 is Named,
        s[j].0 is Named,
    ensures
        s[i].0 != s[j].0,
{
    let n = s[i].0->Named_0;
    assert(match s[i].0 {
        SpecEdgeLabel::Named(m, d) => d == named_count(s.take(i), m),
        _ => true,
    });
    assert(match s[j].0 {
        SpecEdgeLabel::Named(m, d) => d == named_count(s.take(j), m),
        _ => true,
    });
    if s[j].0->Named_0 == n {
        lemma_named_count_grows(s, n, i, j);
    }
}

/// An edge named `n` at index `i` counts towards every later prefix.
proof fn lemma_named_count_grows(s: Seq<(SpecEdgeLabel, SpecNodeId)>, n: Seq<char>, i: int, j: int)
    requires
        0 <= i < j <= s.len(),
        s[i].0 matches SpecEdgeLabel::Named(m, _) && m == n,
    ensures
        named_count(s.take(j), n) > named_count(s.take(i), n),
    decreases j - i,
{
    assert(s.take(j).drop_last() =~= s.take(j - 1));
    if j - 1 > i {
        lemma_named_count_grows(s, n, i, j - 1);
    } else {
        assert(s.take(j).last() == s[i]);
    }
}

/// [`GdbStateNode`] with additional information related to variable objects.
#[derive(Debug)]
pub struct GdbStateNodeForVariable {
    /// The state node.
    pub node: GdbStateNode,
    /// Address of the variable, if available.
    pub address: Option<u64>,
    /// The main parent node, if any; heap-allocated objects have none.
    pub parent: Option<GdbStateNodeId>,
    /// Reference nodes whose dereference edge points to this node.
    pub referers: Vec<VariableObject>,
}

impl GdbStateNodeForVariable {
    /// Wraps a node with its parent and no address or referers.
    pub fn new(node: GdbStateNode, parent: Option<GdbStateNodeId>) -> (r: Self)
        ensures
            r.node == node,
            r.parent == parent,
            r.address is None,
            r.referers@.len() == 0,
    {
        GdbStateNodeForVariable { node, parent, address: None, referers: Vec::new() }
    }

    /// True if the node is associated with a top-level GDB variable object:
    /// its parent is not a variable node.
    pub fn is_top_level(&self) -> (r: bool)
        ensures
            r == !(self.parent matches Some(GdbStateNodeId::VarObject(_))),
    {
        match &self.parent {
            Some(GdbStateNodeId::VarObject(_)) => false,
            _ => true,
        }
    }
}

} // verus!
