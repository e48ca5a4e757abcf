use graphlib::edge::{Edge, GRAPH_NODE};
use graphlib::error::{EdgeError, HierarchyError};
use graphlib::graph::{DefaultEdgeLabel, DefaultNodeLabel, Graph, GraphOption, IdLabel, LabelRule};

fn s(x: &str) -> String {
    x.to_string()
}

fn graph(directed: bool, multigraph: bool, compound: bool) -> Graph<(), u32, u32> {
    Graph::new(Some(GraphOption {
        directed: Some(directed),
        multigraph: Some(multigraph),
        compound: Some(compound),
    }))
}

#[test]
fn undirected_multigraph_named_edges() {
    let mut g = graph(false, true, false);
    assert!(g.set_edge(&s("x"), &s("y"), None, Some(s("e1"))).is_ok());
    assert!(g.set_edge(&s("x"), &s("y"), None, Some(s("e2"))).is_ok());
    assert_eq!(g.edge_count(), 2);
    g.remove_edge(&s("x"), &s("y"), Some(s("e1")));
    assert_eq!(g.edge_count(), 1);
    assert!(g.has_edge(&s("x"), &s("y"), Some(s("e2"))));
    assert!(!g.has_edge(&s("x"), &s("y"), Some(s("e1"))));
}

#[test]
fn removing_a_group_moves_its_children_to_the_top() {
    let mut g = graph(true, false, true);
    assert!(g.set_parent(&s("child"), Some(s("group"))).is_ok());
    assert_eq!(g.parent(&s("child")), Some(&s("group")));
    g.remove_node(&s("group"));
    assert!(g.has_node(&s("child")));
    assert!(!g.has_node(&s("group")));
    assert_eq!(g.parent(&s("child")), None);
    assert_eq!(g.children(&s("child")), Vec::<String>::new());
    assert_eq!(g.children(&s(GRAPH_NODE)), vec![s("child")]);
    assert_eq!(g.node_count(), 1);
}

#[test]
fn named_edge_is_refused_in_a_simple_graph() {
    let mut g = graph(true, false, false);
    assert_eq!(
        g.set_edge(&s("a"), &s("b"), None, Some(s("n"))).err(),
        Some(EdgeError::NamedEdgeOnSimpleGraph)
    );
    assert_eq!(g.node_count(), 0);
    assert_eq!(g.edge_count(), 0);
}

#[test]
fn parents_cannot_form_a_cycle() {
    let mut g = graph(true, false, true);
    assert!(g.set_parent(&s("a"), Some(s("b"))).is_ok());
    assert_eq!(
        g.set_parent(&s("b"), Some(s("a"))).err(),
        Some(HierarchyError::WouldCreateCycle { parent: s("a"), node: s("b") })
    );
    assert_eq!(g.parent(&s("a")), Some(&s("b")));
    assert_eq!(g.parent(&s("b")), None);
}

#[test]
fn edges_come_back_in_creation_order() {
    let mut g = graph(true, false, false);
    assert!(g.set_edge(&s("a"), &s("b"), Some(7), None).is_ok());
    assert!(g.set_edge(&s("b"), &s("c"), None, None).is_ok());
    let edges: Vec<Edge> = g.edges();
    assert_eq!(edges.len(), 2);
    assert_eq!(edges[0].v, "a");
    assert_eq!(edges[0].w, "b");
    assert_eq!(edges[1].v, "b");
    assert_eq!(edges[1].w, "c");
    assert_eq!(g.edge(&s("a"), &s("b"), None), Some(&7));
    assert_eq!(g.edge(&s("b"), &s("c"), None), Some(&0));
    assert_eq!(g.nodes(), vec![s("a"), s("b"), s("c")]);
}

struct Shout;

impl LabelRule<String> for Shout {
    fn label_for(&self, id: String) -> String {
        id.to_uppercase()
    }
}

fn words() -> Graph<String, String, String> {
    Graph::new(None)
}

#[test]
fn new_graph_takes_its_kind_from_the_options() {
    let d: Graph<(), u32, u32> = Graph::new(None);
    assert!(d.is_directed() && !d.is_multigraph() && !d.is_compound());
    let e: Graph<(), u32, u32> = Graph::new(Some(GraphOption::default()));
    assert!(e.is_directed() && !e.is_multigraph() && !e.is_compound());
    let u = graph(false, true, true);
    assert!(!u.is_directed() && u.is_multigraph() && u.is_compound());
    let f: Graph<(), u32, u32> = Graph::default();
    assert!(f.is_directed() && !f.is_multigraph() && !f.is_compound());
    assert_eq!(f.node_count(), 0);
    assert_eq!(f.nodes(), Vec::<String>::new());
}

#[test]
fn node_count_follows_set_and_remove() {
    let mut g = graph(true, false, false);
    g.set_node(s("a"), None);
    g.set_node(s("b"), Some(4));
    g.set_node(s("a"), None);
    assert_eq!(g.node_count(), 2);
    assert_eq!(g.node(&s("a")), Some(&0));
    g.set_node(s("a"), Some(9));
    assert_eq!(g.node_count(), 2);
    assert_eq!(g.node(&s("a")), Some(&9));
    g.set_node(s("a"), None);
    assert_eq!(g.node(&s("a")), Some(&9));
    g.remove_node(&s("a"));
    g.remove_node(&s("a"));
    g.remove_node(&s("zzz"));
    assert_eq!(g.node_count(), 1);
    assert_eq!(g.nodes(), vec![s("b")]);
    assert_eq!(g.node(&s("a")), None);
    assert!(!g.has_node(&s("a")));
}

#[test]
fn set_nodes_sets_each_with_the_value() {
    let mut g = graph(true, false, false);
    g.set_node(s("b"), Some(1));
    g.set_nodes(vec![s("a"), s("b"), s("c")], Some(5));
    assert_eq!(g.nodes(), vec![s("b"), s("a"), s("c")]);
    assert_eq!(g.node(&s("a")), Some(&5));
    assert_eq!(g.node(&s("b")), Some(&5));
    g.set_nodes(vec![s("a"), s("d")], None);
    assert_eq!(g.node(&s("a")), Some(&5));
    assert_eq!(g.node(&s("d")), Some(&0));
}

#[test]
fn default_labels_come_from_the_rule() {
    let mut g = words();
    g.set_node(s("plain"), None);
    assert_eq!(g.node(&s("plain")), Some(&s("")));
    g.set_default_node_label(DefaultNodeLabel::Val(Some(s("fixed"))));
    g.set_node(s("second"), None);
    assert_eq!(g.node(&s("second")), Some(&s("fixed")));
    assert_eq!(g.default_node_label(s("any")), "fixed");
    g.set_default_node_label(DefaultNodeLabel::Func(Box::new(Shout)));
    g.set_default_edge_label(DefaultEdgeLabel::Func(Box::new(IdLabel)));
    assert!(g.set_edge(&s("x"), &s("y"), None, None).is_ok());
    assert_eq!(g.node(&s("x")), Some(&s("X")));
    assert_eq!(g.node(&s("y")), Some(&s("Y")));
    assert_eq!(g.edge(&s("x"), &s("y"), None), Some(&s("x\x01y\x01\x00")));
    g.set_default_edge_label(DefaultEdgeLabel::Val(Some(s("edge"))));
    assert_eq!(g.default_edge_label(s("k")), "edge");
    g.set_default_edge_label(DefaultEdgeLabel::Val(None));
    assert_eq!(g.default_edge_label(s("k")), "");
}

#[test]
fn graph_label_can_be_set_and_changed() {
    let mut g = words();
    assert_eq!(g.graph(), "");
    g.set_graph(s("one"));
    assert_eq!(g.graph(), "one");
    g.graph_mut().push_str(" two");
    assert_eq!(g.graph(), "one two");
}

#[test]
fn labels_can_be_changed_in_place() {
    let mut g = graph(false, true, false);
    assert!(g.set_edge(&s("b"), &s("a"), Some(1), Some(s("n"))).is_ok());
    *g.node_mut(&s("a")).unwrap() = 7;
    assert_eq!(g.node(&s("a")), Some(&7));
    assert!(g.node_mut(&s("none")).is_none());
    *g.edge_mut(&s("a"), &s("b"), Some(s("n"))).unwrap() += 1;
    assert_eq!(g.edge(&s("b"), &s("a"), Some(s("n"))), Some(&2));
    let e = Edge { v: s("b"), w: s("a"), name: Some(s("n")) };
    *g.edge_mut_with_obj(&e).unwrap() = 40;
    assert_eq!(g.edge_with_obj(&e), Some(&40));
    assert!(g.has_edge_with_obj(&e));
    assert!(g.edge_mut(&s("a"), &s("b"), None).is_none());
}

#[test]
fn set_edge_on_a_present_edge_only_sets_the_label() {
    let mut g = graph(true, false, false);
    assert!(g.set_edge(&s("a"), &s("b"), Some(1), None).is_ok());
    assert!(g.set_edge(&s("a"), &s("b"), None, None).is_ok());
    assert_eq!(g.edge(&s("a"), &s("b"), None), Some(&1));
    assert!(g.set_edge(&s("a"), &s("b"), Some(2), None).is_ok());
    assert_eq!(g.edge(&s("a"), &s("b"), None), Some(&2));
    assert_eq!(g.edge_count(), 1);
    assert_eq!(g.successors(&s("a")), Some(vec![s("b")]));
    assert_eq!(g.edge(&s("b"), &s("a"), None), None);
    assert_eq!(EdgeError::NamedEdgeOnSimpleGraph.message(), "Cannot set a named edge when isMultigraph = false");
}

#[test]
fn undirected_edge_is_the_same_from_both_ends() {
    let mut g = graph(false, false, false);
    assert!(g.set_edge(&s("w"), &s("v"), Some(3), None).is_ok());
    assert_eq!(g.edge(&s("v"), &s("w"), None), Some(&3));
    assert_eq!(g.edge(&s("w"), &s("v"), None), Some(&3));
    assert!(g.set_edge(&s("v"), &s("w"), Some(4), None).is_ok());
    assert_eq!(g.edge(&s("w"), &s("v"), None), Some(&4));
    assert_eq!(g.edge_count(), 1);
    assert_eq!(g.nodes(), vec![s("w"), s("v")]);
    let edges = g.edges();
    assert_eq!(edges[0].v, "v");
    assert_eq!(edges[0].w, "w");
    g.remove_edge(&s("w"), &s("v"), None);
    assert_eq!(g.edge_count(), 0);
}

#[test]
fn parallel_edges_keep_one_neighbour_entry() {
    let mut g = graph(true, true, false);
    for n in ["n1", "n2", "n3"] {
        assert!(g.set_edge(&s("v"), &s("w"), None, Some(s(n))).is_ok());
    }
    assert_eq!(g.successors(&s("v")), Some(vec![s("w")]));
    assert_eq!(g.predecessors(&s("w")), Some(vec![s("v")]));
    g.remove_edge(&s("v"), &s("w"), Some(s("n2")));
    g.remove_edge(&s("v"), &s("w"), Some(s("n1")));
    assert_eq!(g.successors(&s("v")), Some(vec![s("w")]));
    assert_eq!(g.predecessors(&s("w")), Some(vec![s("v")]));
    g.remove_edge(&s("v"), &s("w"), Some(s("n3")));
    assert_eq!(g.successors(&s("v")), Some(vec![]));
    assert_eq!(g.predecessors(&s("w")), Some(vec![]));
    assert_eq!(g.edge_count(), 0);
    g.remove_edge(&s("v"), &s("w"), Some(s("n3")));
    assert_eq!(g.edge_count(), 0);
}

#[test]
fn neighbour_queries_tell_absent_from_empty() {
    let mut g = graph(true, false, false);
    assert!(g.set_edge(&s("a"), &s("b"), None, None).is_ok());
    assert!(g.set_edge(&s("b"), &s("a"), None, None).is_ok());
    assert!(g.set_edge(&s("b"), &s("c"), None, None).is_ok());
    g.set_node(s("lone"), None);
    assert_eq!(g.predecessors(&s("none")), None);
    assert_eq!(g.successors(&s("none")), None);
    assert_eq!(g.neighbors(&s("none")), None);
    assert_eq!(g.predecessors(&s("lone")), Some(vec![]));
    assert_eq!(g.neighbors(&s("lone")), Some(vec![]));
    assert_eq!(g.predecessors(&s("b")), Some(vec![s("a")]));
    assert_eq!(g.successors(&s("b")), Some(vec![s("a"), s("c")]));
    assert_eq!(g.neighbors(&s("b")), Some(vec![s("a"), s("c")]));
    assert_eq!(g.neighbors(&s("c")), Some(vec![s("b")]));
    assert_eq!(g.sources(), vec![s("lone")]);
    assert_eq!(g.sinks(), vec![s("c"), s("lone")]);
}

#[test]
fn edge_lists_of_a_node() {
    let mut g = graph(true, true, false);
    assert!(g.set_edge(&s("a"), &s("b"), None, None).is_ok());
    assert!(g.set_edge(&s("c"), &s("b"), None, None).is_ok());
    assert!(g.set_edge(&s("b"), &s("b"), None, None).is_ok());
    assert!(g.set_edge(&s("b"), &s("a"), None, Some(s("back"))).is_ok());
    let key = |es: Vec<Edge>| -> Vec<(String, String, Option<String>)> {
        es.into_iter().map(|e| (e.v, e.w, e.name)).collect()
    };
    assert_eq!(
        key(g.in_edges(&s("b"), None).unwrap()),
        vec![(s("a"), s("b"), None), (s("c"), s("b"), None), (s("b"), s("b"), None)]
    );
    assert_eq!(key(g.in_edges(&s("b"), Some(s("c"))).unwrap()), vec![(s("c"), s("b"), None)]);
    assert_eq!(
        key(g.out_edges(&s("b"), None).unwrap()),
        vec![(s("b"), s("b"), None), (s("b"), s("a"), Some(s("back")))]
    );
    assert_eq!(
        key(g.out_edges(&s("b"), Some(s("a"))).unwrap()),
        vec![(s("b"), s("a"), Some(s("back")))]
    );
    assert_eq!(g.node_edges(&s("b"), None).unwrap().len(), 5);
    assert_eq!(
        key(g.node_edges(&s("b"), Some(s("a"))).unwrap()),
        vec![(s("a"), s("b"), None), (s("b"), s("a"), Some(s("back")))]
    );
    assert_eq!(
        key(g.node_edges(&s("b"), Some(s("b"))).unwrap()),
        vec![(s("b"), s("b"), None), (s("b"), s("b"), None)]
    );
    assert!(g.in_edges(&s("zz"), None).is_none());
    assert!(g.out_edges(&s("zz"), None).is_none());
    assert!(g.node_edges(&s("zz"), None).is_none());
}

#[test]
fn removing_a_node_removes_its_edges() {
    let mut g = graph(true, false, false);
    assert!(g.set_edge(&s("a"), &s("b"), None, None).is_ok());
    assert!(g.set_edge(&s("b"), &s("c"), None, None).is_ok());
    assert!(g.set_edge(&s("b"), &s("b"), None, None).is_ok());
    assert!(g.set_edge(&s("a"), &s("c"), None, None).is_ok());
    g.remove_node(&s("b"));
    assert_eq!(g.edge_count(), 1);
    assert_eq!(g.nodes(), vec![s("a"), s("c")]);
    assert_eq!(g.successors(&s("a")), Some(vec![s("c")]));
    assert_eq!(g.predecessors(&s("c")), Some(vec![s("a")]));
    assert!(g.has_edge(&s("a"), &s("c"), None));
    assert!(!g.has_edge(&s("a"), &s("b"), None));
}

#[test]
fn set_path_sets_an_edge_between_each_two() {
    let mut g = graph(true, false, false);
    g.set_path(&vec![s("a"), s("b"), s("c")], Some(8));
    assert_eq!(g.edge_count(), 2);
    assert_eq!(g.edge(&s("a"), &s("b"), None), Some(&8));
    assert_eq!(g.edge(&s("b"), &s("c"), None), Some(&8));
    g.set_path(&vec![s("only")], None);
    g.set_path(&Vec::new(), None);
    assert_eq!(g.edge_count(), 2);
    assert_eq!(g.node_count(), 3);
}

#[test]
fn edge_objects_set_without_name_and_remove_with_it() {
    let mut g = graph(true, true, false);
    let named = Edge { v: s("a"), w: s("b"), name: Some(s("n")) };
    assert!(g.set_edge_with_obj(&named, Some(1)).is_ok());
    assert!(g.has_edge(&s("a"), &s("b"), None));
    assert!(!g.has_edge_with_obj(&named));
    assert!(g.set_edge(&s("a"), &s("b"), Some(2), Some(s("n"))).is_ok());
    g.remove_edge_with_obj(&named);
    assert!(g.has_edge(&s("a"), &s("b"), None));
    assert!(!g.has_edge(&s("a"), &s("b"), Some(s("n"))));
}
