use graphlib::algo::dfs::dfs;
use graphlib::algo::postorder::postorder;
use graphlib::algo::preorder::preorder;
use graphlib::{Graph, GraphOption};

fn s(x: &str) -> String {
    x.to_string()
}

fn ids(xs: &[&str]) -> Vec<String> {
    xs.iter().map(|x| x.to_string()).collect()
}

fn directed() -> Graph<(), u32, u32> {
    Graph::new(None)
}

fn undirected() -> Graph<(), u32, u32> {
    Graph::new(Some(GraphOption { directed: Some(false), multigraph: None, compound: None }))
}

fn diamond() -> Graph<(), u32, u32> {
    let mut g = directed();
    assert!(g.set_edge(&s("A"), &s("B"), None, None).is_ok());
    assert!(g.set_edge(&s("A"), &s("C"), None, None).is_ok());
    assert!(g.set_edge(&s("B"), &s("D"), None, None).is_ok());
    assert!(g.set_edge(&s("C"), &s("D"), None, None).is_ok());
    g
}

#[test]
fn diamond_in_pre_order() {
    let mut g = diamond();
    assert_eq!(preorder(&mut g, &ids(&["A"])), ids(&["A", "B", "D", "C"]));
}

#[test]
fn diamond_in_post_order() {
    let mut g = diamond();
    assert_eq!(postorder(&mut g, &ids(&["A"])), ids(&["D", "B", "C", "A"]));
}

#[test]
fn dfs_takes_anything_but_post_for_pre_order() {
    let mut g = diamond();
    assert_eq!(dfs(&mut g, &ids(&["A"]), "pre").unwrap(), ids(&["A", "B", "D", "C"]));
    assert_eq!(dfs(&mut g, &ids(&["A"]), "whatever").unwrap(), ids(&["A", "B", "D", "C"]));
    assert_eq!(dfs(&mut g, &ids(&["A"]), "post").unwrap(), ids(&["D", "B", "C", "A"]));
}

#[test]
fn unknown_seed_is_an_error_for_dfs_and_empty_for_the_wrappers() {
    let mut g = diamond();
    let err = dfs(&mut g, &ids(&["A", "Z"]), "pre").unwrap_err();
    assert_eq!(err.node, "Z");
    assert_eq!(err.message(), "Graph does not have node: Z");
    assert_eq!(preorder(&mut g, &ids(&["A", "Z"])), Vec::<String>::new());
    assert_eq!(postorder(&mut g, &ids(&["Z", "A"])), Vec::<String>::new());
}

#[test]
fn seeds_share_what_was_visited() {
    let mut g = diamond();
    assert_eq!(preorder(&mut g, &ids(&["B", "A"])), ids(&["B", "D", "A", "C"]));
    assert_eq!(postorder(&mut g, &ids(&["B", "A"])), ids(&["D", "B", "C", "A"]));
    assert_eq!(preorder(&mut g, &ids(&["A", "A"])), ids(&["A", "B", "D", "C"]));
}

#[test]
fn no_seeds_no_nodes() {
    let mut g = diamond();
    assert_eq!(preorder(&mut g, &Vec::new()), Vec::<String>::new());
    assert_eq!(dfs(&mut g, &Vec::new(), "post").unwrap(), Vec::<String>::new());
}

#[test]
fn every_reachable_node_comes_once() {
    let mut g = directed();
    for (v, w) in [("a", "b"), ("b", "c"), ("c", "a"), ("c", "d"), ("x", "y")] {
        assert!(g.set_edge(&s(v), &s(w), None, None).is_ok());
    }
    let mut pre = preorder(&mut g, &ids(&["a"]));
    assert_eq!(pre, ids(&["a", "b", "c", "d"]));
    let mut post = postorder(&mut g, &ids(&["a"]));
    assert_eq!(post, ids(&["d", "c", "b", "a"]));
    pre.sort();
    post.sort();
    assert_eq!(pre, post);
}

#[test]
fn post_order_puts_a_node_after_what_it_leads_to() {
    let mut g = directed();
    for (v, w) in [("a", "b"), ("a", "c"), ("b", "c"), ("c", "d")] {
        assert!(g.set_edge(&s(v), &s(w), None, None).is_ok());
    }
    let out = postorder(&mut g, &ids(&["a"]));
    assert_eq!(out, ids(&["d", "c", "b", "a"]));
    let at = |x: &str| out.iter().position(|y| y == x).unwrap();
    for (v, w) in [("a", "b"), ("a", "c"), ("b", "c"), ("c", "d")] {
        assert!(at(w) < at(v));
    }
}

#[test]
fn post_order_on_a_cycle_puts_the_seed_last() {
    let mut g = directed();
    assert!(g.set_edge(&s("A"), &s("B"), None, None).is_ok());
    assert!(g.set_edge(&s("B"), &s("A"), None, None).is_ok());
    assert_eq!(postorder(&mut g, &ids(&["A"])), ids(&["B", "A"]));
}

#[test]
fn undirected_traversal_walks_to_all_neighbours() {
    let mut g = undirected();
    assert!(g.set_edge(&s("b"), &s("a"), None, None).is_ok());
    assert!(g.set_edge(&s("b"), &s("c"), None, None).is_ok());
    assert_eq!(preorder(&mut g, &ids(&["c"])), ids(&["c", "b", "a"]));
    assert_eq!(postorder(&mut g, &ids(&["a"])), ids(&["c", "b", "a"]));
}
