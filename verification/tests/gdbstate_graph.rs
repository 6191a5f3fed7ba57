use aili::gdbmi::types::{ChildVariableObject, LocalVariable, StackFrame, VariableObject, VariableObjectData};
use aili::gdbstate::construct::{
    address_of_expression, address_probe_expression, dereference_expression,
    global_variable_expression,
    group_local_names, parse_node_value, parse_numeric_value, preprocess_type_name,
    ContainerKind,
};
use aili::gdbstate::graph::{GdbStateGraph, NonAtomPlan};
use aili::gdbstate::state::{GdbStateNode, GdbStateNodeForVariable, GdbStateNodeId};
use aili::model::state::{EdgeLabel, NodeTypeClass, NodeValue};

fn var(name: &str) -> VariableObject {
    VariableObject(name.to_owned())
}

fn data(name: &str, value: Option<&str>, type_string: &str, numchild: usize) -> VariableObjectData {
    VariableObjectData {
        object: var(name),
        value: value.map(str::to_owned),
        type_string: type_string.to_owned(),
        numchild,
        dynamic: false,
        thread_id: None,
        has_more: false,
    }
}

fn child(name: &str, exp: &str) -> ChildVariableObject {
    ChildVariableObject {
        variable_object: data(name, None, "int", 0),
        exp: exp.to_owned(),
    }
}

fn frame(level: usize, func: &str) -> StackFrame {
    StackFrame {
        level,
        addr: 0,
        func: func.to_owned(),
        file: String::new(),
        fullname: String::new(),
        line: 0,
        from: None,
        arch: String::new(),
    }
}

fn local(name: &str) -> LocalVariable {
    LocalVariable {
        name: name.to_owned(),
        arg: false,
        value: None,
    }
}

#[test]
fn node_values_as_gdb_prints_them() {
    assert_eq!(parse_node_value("42"), Some(NodeValue::Uint(42)));
    assert_eq!(parse_node_value("-7"), Some(NodeValue::Int(-7)));
    assert_eq!(parse_node_value("0x1f"), Some(NodeValue::Uint(31)));
    assert_eq!(parse_node_value("97 'a'"), Some(NodeValue::Uint(97)));
    assert_eq!(parse_node_value("-1 '\\377'"), Some(NodeValue::Int(-1)));
    assert_eq!(
        parse_node_value("0x5555555592a0 \"hello\""),
        Some(NodeValue::Uint(0x5555555592a0))
    );
    assert_eq!(parse_node_value("{...}"), None);
    assert_eq!(parse_node_value("[3]"), None);
    assert_eq!(parse_numeric_value("+5"), Some(NodeValue::Uint(5)));
    assert_eq!(parse_numeric_value("0x"), None);
}

#[test]
fn type_names_lose_const_and_struct() {
    assert_eq!(preprocess_type_name("const struct node *".to_owned()), "node *");
    assert_eq!(preprocess_type_name("struct node".to_owned()), "node");
    assert_eq!(preprocess_type_name("const int".to_owned()), "int");
    assert_eq!(preprocess_type_name("struct const x".to_owned()), "const x");
    assert_eq!(preprocess_type_name("int".to_owned()), "int");
}

#[test]
fn container_kinds_from_child_names() {
    assert_eq!(ContainerKind::deduce_from_children(&vec![]), None);
    assert_eq!(
        ContainerKind::deduce_from_children(&vec![child("v.*p", "*p")]),
        Some(ContainerKind::Pointer)
    );
    assert_eq!(
        ContainerKind::deduce_from_children(&vec![child("v.0", "0"), child("v.1", "1")]),
        Some(ContainerKind::Array)
    );
    assert_eq!(
        ContainerKind::deduce_from_children(&vec![child("v.a", "a"), child("v.1", "1")]),
        Some(ContainerKind::Struct)
    );
    assert_eq!(
        ContainerKind::deduce_from_children(&vec![child("v.*p", "*p"), child("v.q", "q")]),
        Some(ContainerKind::Struct)
    );
    assert_eq!(NodeTypeClass::from(ContainerKind::Array), NodeTypeClass::Array);
}

#[test]
fn expressions_sent_to_gdb() {
    assert_eq!(dereference_expression("int *", 4096), "*(int *)4096");
    assert_eq!(address_probe_expression(16), "*(char*)16");
    assert_eq!(global_variable_expression("counter"), "::counter");
}

#[test]
fn locals_are_grouped_by_name() {
    let locals = vec![local("b"), local("a"), local("b"), local("c"), local("b")];
    assert_eq!(
        group_local_names(&locals),
        vec![
            ("a".to_owned(), 0),
            ("b".to_owned(), 2),
            ("c".to_owned(), 0)
        ]
    );
    assert_eq!(group_local_names(&vec![]), vec![]);
}

#[test]
fn named_successors_get_sequential_discriminators() {
    let mut node = GdbStateNode::new(NodeTypeClass::Struct);
    node.add_named_successor("x".to_owned(), GdbStateNodeId::Frame(1));
    node.add_named_successor("y".to_owned(), GdbStateNodeId::Frame(2));
    node.add_named_successor("x".to_owned(), GdbStateNodeId::Frame(3));
    assert_eq!(
        node.successors,
        vec![
            (EdgeLabel::Named("x".to_owned(), 0), GdbStateNodeId::Frame(1)),
            (EdgeLabel::Named("y".to_owned(), 0), GdbStateNodeId::Frame(2)),
            (EdgeLabel::Named("x".to_owned(), 1), GdbStateNodeId::Frame(3)),
        ]
    );
    assert_eq!(
        node.get_successor(&EdgeLabel::Named("x".to_owned(), 1)),
        Some(GdbStateNodeId::Frame(3))
    );
    assert_eq!(node.remove_successor(&EdgeLabel::Named("x".to_owned(), 0)), Some(GdbStateNodeId::Frame(1)));
    assert_eq!(
        node.successors,
        vec![
            (EdgeLabel::Named("x".to_owned(), 1), GdbStateNodeId::Frame(3)),
            (EdgeLabel::Named("y".to_owned(), 0), GdbStateNodeId::Frame(2)),
        ]
    );
    assert_eq!(
        node.remove_successor_by_id(&GdbStateNodeId::Frame(2)),
        Some(EdgeLabel::Named("y".to_owned(), 0))
    );
    assert_eq!(node.remove_successor(&EdgeLabel::Main), None);
    assert_eq!(node.node_type_id(), None);
}

#[test]
fn variable_nodes_are_created_and_read() {
    let mut graph = GdbStateGraph::empty();
    graph.create_variable_node(data("var1", Some("5"), "const int", 0), Some(GdbStateNodeId::Frame(0)));
    let node = graph.get(&GdbStateNodeId::VarObject(var("var1"))).unwrap();
    assert_eq!(node.node_type_class(), NodeTypeClass::Atom);
    assert_eq!(node.node_type_id(), Some("int"));
    assert_eq!(node.value(), Some(NodeValue::Uint(5)));
    assert!(graph.get(&GdbStateNodeId::VarObject(var("var2"))).is_none());
    assert!(graph.get(&GdbStateNodeId::Frame(0)).is_none());
    assert_eq!(graph.root(), GdbStateNodeId::Root);
    assert_eq!(
        graph.get(&GdbStateNodeId::Root).unwrap().node_type_class(),
        NodeTypeClass::Root
    );
    assert!(graph.variable(&var("var1")).unwrap().parent == Some(GdbStateNodeId::Frame(0)));
    assert!(graph.variable(&var("var1")).unwrap().is_top_level());
}

#[test]
fn stack_frames_are_linked() {
    let mut graph = GdbStateGraph::empty();
    assert_eq!(graph.push_frame("main".to_owned()), 0);
    assert_eq!(graph.push_frame("f".to_owned()), 1);
    assert_eq!(
        graph.get(&GdbStateNodeId::Root).unwrap().get_successor(&EdgeLabel::Main),
        Some(GdbStateNodeId::Frame(0))
    );
    assert_eq!(
        graph.get(&GdbStateNodeId::Frame(0)).unwrap().get_successor(&EdgeLabel::Next),
        Some(GdbStateNodeId::Frame(1))
    );
    // GDB lists frames from the top
    let same = vec![frame(0, "f"), frame(1, "main")];
    assert_eq!(graph.first_changed_frame(&same), 2);
    let changed = vec![frame(0, "g"), frame(1, "main")];
    assert_eq!(graph.first_changed_frame(&changed), 1);
    let returned = vec![frame(0, "main")];
    assert_eq!(graph.first_changed_frame(&returned), 1);
    graph.drop_stack_frames_after(1);
    assert_eq!(graph.frame_count(), 1);
    assert_eq!(
        graph.get(&GdbStateNodeId::Frame(0)).unwrap().get_successor(&EdgeLabel::Next),
        None
    );
    graph.drop_stack_frames_after(0);
    assert_eq!(graph.frame_count(), 0);
    assert_eq!(
        graph.get(&GdbStateNodeId::Root).unwrap().get_successor(&EdgeLabel::Main),
        None
    );
}

#[test]
fn subtrees_are_removed_with_their_variable() {
    let mut graph = GdbStateGraph::empty();
    graph.push_frame("main".to_owned());
    graph.create_variable_node(data("arr", None, "int [2]", 2), Some(GdbStateNodeId::Frame(0)));
    graph.add_frame_successor(0, EdgeLabel::Named("arr".to_owned(), 0), GdbStateNodeId::VarObject(var("arr")));
    assert_eq!(graph.plan_non_atom(&var("arr")), NonAtomPlan::Children);
    graph.set_container_kind(&var("arr"), ContainerKind::Array);
    graph.create_variable_node(data("arr.0", Some("1"), "int", 0), Some(GdbStateNodeId::VarObject(var("arr"))));
    graph.create_variable_node(data("arr.1", Some("2"), "int", 0), Some(GdbStateNodeId::VarObject(var("arr"))));
    graph.push_variable_successor(&var("arr"), EdgeLabel::Index(0), GdbStateNodeId::VarObject(var("arr.0")));
    graph.push_variable_successor(&var("arr"), EdgeLabel::Index(1), GdbStateNodeId::VarObject(var("arr.1")));
    graph.add_array_length(&var("arr"), 2);
    assert_eq!(
        graph.get(&GdbStateNodeId::Length(var("arr"))).unwrap().value(),
        Some(NodeValue::Uint(2))
    );
    let arr = graph.get(&GdbStateNodeId::VarObject(var("arr"))).unwrap();
    assert_eq!(arr.node_type_class(), NodeTypeClass::Array);
    assert_eq!(arr.node_type_id(), None);
    assert_eq!(arr.get_successor(&EdgeLabel::Length), Some(GdbStateNodeId::Length(var("arr"))));
    graph.create_variable_node(data("other", Some("3"), "int", 0), None);

    graph.forget_variable(&var("arr"));
    assert!(graph.get(&GdbStateNodeId::VarObject(var("arr"))).is_none());
    assert!(graph.get(&GdbStateNodeId::VarObject(var("arr.0"))).is_none());
    assert!(graph.get(&GdbStateNodeId::VarObject(var("arr.1"))).is_none());
    assert!(graph.get(&GdbStateNodeId::Length(var("arr"))).is_none());
    assert!(graph.get(&GdbStateNodeId::VarObject(var("other"))).is_some());
    assert!(!graph.frame_has_edge(0, &EdgeLabel::Named("arr".to_owned(), 0)));
}

#[test]
fn pointers_are_planned_and_refreshed() {
    let mut graph = GdbStateGraph::empty();
    graph.create_variable_node(data("p", Some("0x1000"), "struct node *", 1), None);
    assert_eq!(graph.plan_non_atom(&var("p")), NonAtomPlan::Pointer(0x1000));
    assert_eq!(graph.variable_type(&var("p")), Some("node *".to_owned()));
    assert_eq!(graph.dereference_of(0x1000), None);
    graph.create_variable_node(data("d", None, "node", 1), None);
    graph.remember_dereference(0x1000, var("d"));
    assert_eq!(graph.dereference_of(0x1000), Some(var("d")));
    graph.push_variable_successor(&var("p"), EdgeLabel::Deref, GdbStateNodeId::VarObject(var("d")));
    // a new value drops the dereference edge and asks for the new target
    assert_eq!(
        graph.update_variable_value(&var("p"), Some("0x2000".to_owned())),
        Some((0x2000, "node *".to_owned()))
    );
    let p = graph.get(&GdbStateNodeId::VarObject(var("p"))).unwrap();
    assert_eq!(p.get_successor(&EdgeLabel::Deref), None);
    assert_eq!(p.value(), Some(NodeValue::Uint(0x2000)));
    // removing a pointer leaves its target alone
    graph.remove_variables_recursive(&var("p"));
    assert!(graph.get(&GdbStateNodeId::VarObject(var("d"))).is_some());

    graph.create_variable_node(data("q", Some("0"), "int *", 1), None);
    assert_eq!(graph.plan_non_atom(&var("q")), NonAtomPlan::NoTarget);
    assert_eq!(
        graph.get(&GdbStateNodeId::VarObject(var("q"))).unwrap().node_type_class(),
        NodeTypeClass::Ref
    );
    assert_eq!(graph.update_variable_value(&var("missing"), None), None);
    let _ = GdbStateNodeForVariable::new(GdbStateNode::new(NodeTypeClass::Atom), None);
}

#[test]
fn globals_hang_from_the_root() {
    let mut graph = GdbStateGraph::empty();
    graph.add_root_named_successor("g".to_owned(), GdbStateNodeId::VarObject(var("g")));
    graph.add_root_named_successor("g".to_owned(), GdbStateNodeId::VarObject(var("g2")));
    assert_eq!(
        graph.get(&GdbStateNodeId::Root).unwrap().get_successor(&EdgeLabel::Named("g".to_owned(), 1)),
        Some(GdbStateNodeId::VarObject(var("g2")))
    );
}

#[test]
fn missing_locals_are_listed_once_per_name() {
    let mut graph = GdbStateGraph::empty();
    graph.push_frame("main".to_owned());
    let locals = vec![local("y"), local("x"), local("y"), local("a")];
    assert_eq!(
        graph.locals_to_create(0, &locals),
        vec![
            ("a".to_owned(), EdgeLabel::Named("a".to_owned(), 0)),
            ("x".to_owned(), EdgeLabel::Named("x".to_owned(), 0)),
            ("y".to_owned(), EdgeLabel::Named("y".to_owned(), 1)),
        ]
    );
    graph.add_frame_successor(0, EdgeLabel::Named("y".to_owned(), 1), GdbStateNodeId::VarObject(var("y")));
    assert_eq!(
        graph.locals_to_create(0, &locals),
        vec![
            ("a".to_owned(), EdgeLabel::Named("a".to_owned(), 0)),
            ("x".to_owned(), EdgeLabel::Named("x".to_owned(), 0)),
        ]
    );
    // an older variable of the same name does not count
    graph.add_frame_successor(0, EdgeLabel::Named("x".to_owned(), 1), GdbStateNodeId::VarObject(var("x")));
    assert_eq!(
        graph.locals_to_create(0, &vec![local("x")]),
        vec![("x".to_owned(), EdgeLabel::Named("x".to_owned(), 0))]
    );
    assert_eq!(graph.locals_to_create(0, &vec![]), vec![]);
}

#[test]
fn array_elements_extend_the_length() {
    let mut graph = GdbStateGraph::empty();
    graph.create_variable_node(data("arr", None, "int [5]", 5), None);
    let target = GdbStateNodeId::VarObject(var("arr.3"));
    assert_eq!(graph.add_array_element(&var("arr"), "3", target.clone(), 0), 4);
    assert_eq!(graph.add_array_element(&var("arr"), "1", GdbStateNodeId::VarObject(var("arr.1")), 4), 4);
    assert_eq!(graph.add_array_element(&var("arr"), "x", GdbStateNodeId::VarObject(var("arr.x")), 4), 4);
    let arr = graph.get(&GdbStateNodeId::VarObject(var("arr"))).unwrap();
    assert_eq!(arr.get_successor(&EdgeLabel::Index(3)), Some(target));
    assert_eq!(arr.get_successor(&EdgeLabel::Index(1)), Some(GdbStateNodeId::VarObject(var("arr.1"))));
    assert_eq!(arr.get_successor(&EdgeLabel::Index(0)), None);
}

#[test]
fn top_level_variables_exclude_children() {
    let mut graph = GdbStateGraph::empty();
    graph.push_frame("main".to_owned());
    graph.create_variable_node(data("s", None, "struct pair", 2), Some(GdbStateNodeId::Frame(0)));
    graph.create_variable_node(data("s.a", Some("1"), "int", 0), Some(GdbStateNodeId::VarObject(var("s"))));
    graph.create_variable_node(data("g", Some("2"), "int", 0), Some(GdbStateNodeId::Root));
    graph.create_variable_node(data("d", Some("3"), "int", 0), None);
    let mut top: Vec<String> = graph.top_level_variables().into_iter().map(|v| v.0).collect();
    top.sort();
    assert_eq!(top, vec!["d".to_owned(), "g".to_owned(), "s".to_owned()]);
}

#[test]
fn removal_takes_the_whole_subtree_and_nothing_else() {
    let mut graph = GdbStateGraph::empty();
    graph.create_variable_node(data("s", None, "struct pair", 2), None);
    graph.create_variable_node(data("s.a", None, "struct inner", 1), Some(GdbStateNodeId::VarObject(var("s"))));
    graph.create_variable_node(data("s.a.x", Some("1"), "int", 0), Some(GdbStateNodeId::VarObject(var("s.a"))));
    graph.create_variable_node(data("t", Some("2"), "int", 0), None);
    graph.push_variable_successor(&var("s"), EdgeLabel::Named("a".to_owned(), 0), GdbStateNodeId::VarObject(var("s.a")));
    graph.push_variable_successor(&var("s.a"), EdgeLabel::Named("x".to_owned(), 0), GdbStateNodeId::VarObject(var("s.a.x")));
    graph.create_variable_node(data("p", Some("0x10"), "int *", 1), Some(GdbStateNodeId::VarObject(var("s.a"))));
    graph.push_variable_successor(&var("s.a"), EdgeLabel::Named("p".to_owned(), 0), GdbStateNodeId::VarObject(var("p")));
    graph.push_variable_successor(&var("p"), EdgeLabel::Deref, GdbStateNodeId::VarObject(var("t")));
    assert_eq!(graph.remove_variables_recursive(&var("s")), None);
    assert!(graph.get(&GdbStateNodeId::VarObject(var("p"))).is_none());
    assert!(graph.get(&GdbStateNodeId::VarObject(var("s"))).is_none());
    assert!(graph.get(&GdbStateNodeId::VarObject(var("s.a"))).is_none());
    assert!(graph.get(&GdbStateNodeId::VarObject(var("s.a.x"))).is_none());
    // the target of a dereference edge stays
    assert!(graph.get(&GdbStateNodeId::VarObject(var("t"))).is_some());
    assert_eq!(graph.remove_variables_recursive(&var("missing")), None);
}

#[test]
fn nodes_are_found_along_paths() {
    let mut graph = GdbStateGraph::empty();
    graph.push_frame("main".to_owned());
    graph.push_frame("f".to_owned());
    graph.create_variable_node(data("x", Some("5"), "int", 0), Some(GdbStateNodeId::Frame(1)));
    graph.add_frame_successor(1, EdgeLabel::Named("x".to_owned(), 0), GdbStateNodeId::VarObject(var("x")));
    let path = vec![EdgeLabel::Main, EdgeLabel::Next, EdgeLabel::Named("x".to_owned(), 0)];
    assert_eq!(graph.get_id_at_root(&path), Some(GdbStateNodeId::VarObject(var("x"))));
    assert_eq!(graph.get_at_root(&path).unwrap().value(), Some(NodeValue::Uint(5)));
    assert_eq!(
        graph.get_id_at(&GdbStateNodeId::Frame(0), &vec![EdgeLabel::Next]),
        Some(GdbStateNodeId::Frame(1))
    );
    assert_eq!(graph.get_id_at(&GdbStateNodeId::Frame(7), &vec![]), Some(GdbStateNodeId::Frame(7)));
    assert_eq!(graph.get_id_at(&GdbStateNodeId::Frame(7), &vec![EdgeLabel::Next]), None);
    assert_eq!(graph.get_id_at_root(&vec![EdgeLabel::Main, EdgeLabel::Deref]), None);
    assert!(graph.get_at(&GdbStateNodeId::Root, &vec![EdgeLabel::Result]).is_none());
}

#[test]
fn forgetting_a_variable_detaches_references_to_it() {
    let mut graph = GdbStateGraph::empty();
    graph.push_frame("main".to_owned());
    graph.create_variable_node(data("a", Some("42"), "int", 0), Some(GdbStateNodeId::Frame(0)));
    graph.add_frame_successor(0, EdgeLabel::Named("a".to_owned(), 0), GdbStateNodeId::VarObject(var("a")));
    graph.remember_dereference(0x1000, var("a"));
    graph.create_variable_node(data("p", Some("0x1000"), "int *", 1), Some(GdbStateNodeId::Frame(0)));
    graph.add_frame_successor(0, EdgeLabel::Named("p".to_owned(), 0), GdbStateNodeId::VarObject(var("p")));
    assert_eq!(graph.plan_non_atom(&var("p")), NonAtomPlan::Pointer(0x1000));
    // a pointer to a local leads to the local's own node
    let target = graph.dereference_of(0x1000).unwrap();
    graph.push_variable_successor(&var("p"), EdgeLabel::Deref, GdbStateNodeId::VarObject(target));
    assert_eq!(
        graph.get_id_at_root(&vec![EdgeLabel::Main, EdgeLabel::Named("p".to_owned(), 0), EdgeLabel::Deref]),
        graph.get_id_at_root(&vec![EdgeLabel::Main, EdgeLabel::Named("a".to_owned(), 0)])
    );
    graph.forget_variable(&var("a"));
    let p = graph.get(&GdbStateNodeId::VarObject(var("p"))).unwrap();
    assert_eq!(p.get_successor(&EdgeLabel::Deref), None);
    assert_eq!(p.value(), Some(NodeValue::Uint(0x1000)));
    assert_eq!(graph.dereference_of(0x1000), None);
    assert_eq!(address_of_expression("a"), "(unsigned long long)&(a)");
}

#[test]
fn same_answers_keep_the_graph() {
    let mut graph = GdbStateGraph::empty();
    graph.push_frame("main".to_owned());
    graph.create_variable_node(data("local", Some("42"), "int", 0), Some(GdbStateNodeId::Frame(0)));
    graph.add_frame_successor(0, EdgeLabel::Named("local".to_owned(), 0), GdbStateNodeId::VarObject(var("local")));
    // GDB answers as before: the same stack and the same locals
    let stack = vec![frame(0, "main")];
    let update_index = graph.first_changed_frame(&stack);
    assert_eq!(update_index, 1);
    graph.drop_stack_frames_after(update_index);
    assert_eq!(graph.frame_count(), 1);
    assert_eq!(graph.locals_to_create(update_index - 1, &vec![local("local")]), vec![]);
    assert!(graph
        .get_id_at_root(&vec![EdgeLabel::Main, EdgeLabel::Named("local".to_owned(), 0)])
        .is_some());
    assert!(graph
        .get_id_at_root(&vec![EdgeLabel::Main, EdgeLabel::Named("local".to_owned(), 1)])
        .is_none());
}
