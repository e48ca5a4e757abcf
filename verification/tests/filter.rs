use graphlib::edge::GRAPH_NODE;
use graphlib::graph::{Graph, GraphOption};

fn s(x: &str) -> String {
    x.to_string()
}

fn graph(directed: bool, multigraph: bool, compound: bool) -> Graph<(), u32, u32> {
    Graph::new(Some(GraphOption {
        directed: Some(directed),
        multigraph: Some(multigraph),
        compound: Some(compound),
    }))
}

#[test]
fn filter_keeps_nodes_and_the_edges_between_them() {
    let mut g = graph(true, false, false);
    g.set_node(s("a"), Some(1)).set_node(s("b"), Some(2)).set_node(s("c"), Some(3));
    assert!(g.set_edge(&s("a"), &s("b"), Some(12), None).is_ok());
    assert!(g.set_edge(&s("b"), &s("c"), Some(23), None).is_ok());
    assert!(g.set_edge(&s("a"), &s("c"), Some(13), None).is_ok());
    let f = g.filter_nodes(|v: &String| v != "b");
    assert_eq!(f.nodes(), vec![s("a"), s("c")]);
    assert_eq!(f.node(&s("a")), Some(&1));
    assert_eq!(f.node(&s("c")), Some(&3));
    assert_eq!(f.edge_count(), 1);
    assert_eq!(f.edge(&s("a"), &s("c"), None), Some(&13));
    assert!(!f.has_edge(&s("a"), &s("b"), None));
    assert!(f.is_directed());
    assert_eq!(g.node_count(), 3);
    assert_eq!(g.edge_count(), 3);
}

#[test]
fn filter_that_keeps_all_gives_the_same_graph() {
    let mut g = graph(false, true, true);
    assert!(g.set_edge(&s("y"), &s("x"), Some(1), Some(s("e1"))).is_ok());
    assert!(g.set_edge(&s("x"), &s("y"), Some(2), Some(s("e2"))).is_ok());
    assert!(g.set_edge(&s("x"), &s("z"), Some(3), None).is_ok());
    assert!(g.set_parent(&s("x"), Some(s("top"))).is_ok());
    assert!(g.set_parent(&s("y"), Some(s("x"))).is_ok());
    let f = g.filter_nodes(|_: &String| true);
    assert_eq!(f.nodes(), g.nodes());
    let ge = g.edges();
    let fe = f.edges();
    assert_eq!(ge.len(), 3);
    assert_eq!(fe.len(), 3);
    for i in 0..3 {
        assert_eq!(fe[i].v, ge[i].v);
        assert_eq!(fe[i].w, ge[i].w);
        assert_eq!(fe[i].name, ge[i].name);
        assert_eq!(f.edge_with_obj(&fe[i]), g.edge_with_obj(&ge[i]));
    }
    for v in g.nodes() {
        assert_eq!(f.parent(&v), g.parent(&v));
        let mut a = f.children(&v);
        let mut b = g.children(&v);
        a.sort();
        b.sort();
        assert_eq!(a, b);
    }
    assert!(!f.is_directed());
    assert!(f.is_multigraph());
    assert!(f.is_compound());
}

#[test]
fn filter_puts_a_node_under_its_nearest_kept_ancestor() {
    let mut g = graph(true, false, true);
    assert!(g.set_parent(&s("mid"), Some(s("top"))).is_ok());
    assert!(g.set_parent(&s("low"), Some(s("mid"))).is_ok());
    assert!(g.set_parent(&s("leaf"), Some(s("low"))).is_ok());
    let f = g.filter_nodes(|v: &String| v != "mid" && v != "low");
    assert_eq!(f.nodes(), vec![s("top"), s("leaf")]);
    assert_eq!(f.parent(&s("leaf")), Some(&s("top")));
    assert_eq!(f.children(&s("top")), vec![s("leaf")]);
    let h = g.filter_nodes(|v: &String| v != "top");
    assert_eq!(h.parent(&s("mid")), None);
    assert_eq!(h.parent(&s("low")), Some(&s("mid")));
    assert_eq!(h.children(&s(GRAPH_NODE)), vec![s("mid")]);
}
