use graphlib::edge::GRAPH_NODE;
use graphlib::error::HierarchyError;
use graphlib::graph::{Graph, GraphOption};

fn s(x: &str) -> String {
    x.to_string()
}

fn compound() -> Graph<(), u32, u32> {
    Graph::new(Some(GraphOption { directed: None, multigraph: None, compound: Some(true) }))
}

#[test]
fn set_parent_needs_a_compound_graph() {
    let mut g: Graph<(), u32, u32> = Graph::new(None);
    let err = g.set_parent(&s("a"), Some(s("b"))).err();
    assert_eq!(err, Some(HierarchyError::NotCompound));
    assert_eq!(err.unwrap().message(), "Cannot set parent in a non-compound graph");
    assert_eq!(g.node_count(), 0);
    assert_eq!(g.parent(&s("a")), None);
}

#[test]
fn set_parent_creates_missing_nodes_parent_first() {
    let mut g = compound();
    assert!(g.set_parent(&s("kid"), Some(s("top"))).is_ok());
    assert_eq!(g.nodes(), vec![s("top"), s("kid")]);
    assert_eq!(g.parent(&s("kid")), Some(&s("top")));
    assert_eq!(g.parent(&s("top")), None);
    assert_eq!(g.children(&s("top")), vec![s("kid")]);
    assert_eq!(g.children(&s(GRAPH_NODE)), vec![s("top")]);
}

#[test]
fn a_node_cannot_be_its_own_parent() {
    let mut g = compound();
    let err = g.set_parent(&s("a"), Some(s("a"))).err();
    assert_eq!(err, Some(HierarchyError::WouldCreateCycle { parent: s("a"), node: s("a") }));
    assert!(!g.has_node(&s("a")));
}

#[test]
fn a_longer_cycle_is_refused_and_nothing_moves() {
    let mut g = compound();
    assert!(g.set_parent(&s("a"), Some(s("b"))).is_ok());
    assert!(g.set_parent(&s("b"), Some(s("c"))).is_ok());
    let err = g.set_parent(&s("c"), Some(s("a"))).err().unwrap();
    assert_eq!(err, HierarchyError::WouldCreateCycle { parent: s("a"), node: s("c") });
    assert_eq!(err.message(), "Setting a as parent of c would create a cycle");
    assert_eq!(g.parent(&s("a")), Some(&s("b")));
    assert_eq!(g.parent(&s("b")), Some(&s("c")));
    assert_eq!(g.parent(&s("c")), None);
    assert_eq!(g.children(&s(GRAPH_NODE)), vec![s("c")]);
}

#[test]
fn moving_a_node_takes_it_from_its_old_parent() {
    let mut g = compound();
    assert!(g.set_parent(&s("x"), Some(s("p"))).is_ok());
    assert!(g.set_parent(&s("y"), Some(s("p"))).is_ok());
    assert!(g.set_parent(&s("x"), Some(s("q"))).is_ok());
    assert_eq!(g.children(&s("p")), vec![s("y")]);
    assert_eq!(g.children(&s("q")), vec![s("x")]);
    assert!(g.set_parent(&s("y"), Some(s("p"))).is_ok());
    assert_eq!(g.children(&s("p")), vec![s("y")]);
    assert!(g.set_parent(&s("x"), None).is_ok());
    assert_eq!(g.parent(&s("x")), None);
    assert_eq!(g.children(&s("q")), Vec::<String>::new());
    assert_eq!(g.children(&s(GRAPH_NODE)), vec![s("p"), s("q"), s("x")]);
}

#[test]
fn removing_a_node_flattens_its_children_to_the_top() {
    let mut g = compound();
    assert!(g.set_parent(&s("mid"), Some(s("top"))).is_ok());
    assert!(g.set_parent(&s("a"), Some(s("mid"))).is_ok());
    assert!(g.set_parent(&s("b"), Some(s("mid"))).is_ok());
    g.remove_node(&s("mid"));
    assert_eq!(g.parent(&s("a")), None);
    assert_eq!(g.parent(&s("b")), None);
    assert_eq!(g.children(&s("top")), Vec::<String>::new());
    assert_eq!(g.children(&s(GRAPH_NODE)), vec![s("top"), s("a"), s("b")]);
    assert_eq!(g.children(&s("mid")), Vec::<String>::new());
}

#[test]
fn without_hierarchy_all_nodes_are_children_of_the_root() {
    let mut g: Graph<(), u32, u32> = Graph::new(None);
    g.set_node(s("a"), None).set_node(s("b"), None);
    assert_eq!(g.children(&s(GRAPH_NODE)), vec![s("a"), s("b")]);
    assert_eq!(g.children(&s("a")), Vec::<String>::new());
    assert_eq!(g.parent(&s("a")), None);
}

#[test]
fn a_leaf_is_a_node_without_steps_whatever_its_children() {
    let mut g = compound();
    assert!(g.set_parent(&s("kid"), Some(s("top"))).is_ok());
    assert!(g.is_leaf(&s("top")));
    assert!(g.set_edge(&s("top"), &s("other"), None, None).is_ok());
    assert!(!g.is_leaf(&s("top")));
    assert!(g.is_leaf(&s("other")));
    assert!(g.is_leaf(&s("nowhere")));
}
