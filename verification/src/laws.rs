//! What holds of every consistent graph, whatever operations made it.

use crate::edge::{edge_key, legal_id, lemma_undirected_symmetric, sentinel};
use crate::model::{lemma_push_contains, lemma_tally_bounds, lemma_without, GraphModel};
use vstd::prelude::*;

verus! {

/// The nodes of a graph are distinct: there are as many of them as there
/// are different identifiers among them. So the node count, which is the
/// length of the node list, is the number of identifiers present.
pub proof fn law_node_count<N, E>(m: GraphModel<N, E>)
    requires
        m.inv(),
    ensures
        m.nodes.no_duplicates(),
        m.nodes.to_set().len() == m.nodes.len(),
        forall|v: Seq<char>| m.nodes.to_set().contains(v) <==> m.has_node(v),
{
    m.nodes.unique_seq_to_set();
}

/// The edges of a graph have distinct keys: there are as many edges as
/// there are different keys among them.
pub proof fn law_edge_count<N, E>(m: GraphModel<N, E>)
    requires
        m.inv(),
    ensures
        m.edges.no_duplicates(),
        m.edges.to_set().len() == m.edges.len(),
        forall|k: Seq<char>| m.edges.to_set().contains(k) <==> m.has_edge(k),
{
    m.edges.unique_seq_to_set();
}

/// Every edge stands, once, in the list of incoming edges of its target
/// and of no other node, and, once, in the list of outgoing edges of its
/// source and of no other node.
pub proof fn law_edge_listed_once<N, E>(m: GraphModel<N, E>, k: Seq<char>, x: Seq<char>)
    requires
        m.inv(),
        m.has_edge(k),
        m.has_node(x),
    ensures
        m.has_node(m.edge[k].rec.v),
        m.has_node(m.edge[k].rec.w),
        m.node[x].ins.contains(k) <==> x == m.edge[k].rec.w,
        m.node[x].outs.contains(k) <==> x == m.edge[k].rec.v,
        m.node[x].ins.no_duplicates(),
        m.node[x].outs.no_duplicates(),
{
    assert(m.edge_ok(k));
    assert(m.node_edges_ok(x));
}

/// In an undirected graph an edge is the same edge from either end: both
/// orders of the end points give the same key, so that `edge(v, w)` and
/// `edge(w, v)` find the same label, or both find none.
pub proof fn law_undirected_symmetry<N, E>(
    m: GraphModel<N, E>,
    v: Seq<char>,
    w: Seq<char>,
    name: Option<Seq<char>>,
)
    requires
        !m.directed,
    ensures
        m.key(v, w, name) == m.key(w, v, name),
        m.has_edge(m.key(v, w, name)) == m.has_edge(m.key(w, v, name)),
        m.edge[m.key(v, w, name)].label == m.edge[m.key(w, v, name)].label,
{
    lemma_undirected_symmetric(v, w, name);
}

/// A node `w` is listed among the successors of `v` exactly when some edge
/// leads from `v` to `w`, and then it is listed once, however many such
/// edges there are; and `v` is then listed, once, among the predecessors
/// of `w`. So where parallel edges are removed one by one, the two stay
/// neighbours until the last of them is gone.
pub proof fn law_neighbours_follow_edges<N, E>(m: GraphModel<N, E>, v: Seq<char>, w: Seq<char>)
    requires
        m.inv(),
        m.has_node(v),
        m.has_node(w),
    ensures
        m.node[v].sucs.ids.contains(w) <==> m.joined(v, w),
        m.node[w].preds.ids.contains(v) <==> m.joined(v, w),
        m.node[v].sucs.ids.no_duplicates(),
        m.node[w].preds.ids.no_duplicates(),
{
    assert(m.node_edges_ok(v));
    assert(m.node_edges_ok(w));
    if m.node[v].sucs.ids.contains(w) {
        m.lemma_neighbour_is_node(v, w, false);
    }
    if m.node[w].preds.ids.contains(v) {
        m.lemma_neighbour_is_node(w, v, true);
    }
    if m.joined(v, w) {
        let k = choose|k: Seq<char>|
            m.has_edge(k) && #[trigger] m.edge[k].rec.v == v && m.edge[k].rec.w == w;
        assert(m.edge_ok(k));
        lemma_tally_bounds(m.node[v].outs, m.node[v].out_rec, false, w);
        lemma_tally_bounds(m.node[w].ins, m.node[w].in_rec, true, v);
        assert(m.node[v].outs.contains(k) && m.node[v].out_rec[k] == m.edge[k].rec);
        assert(m.node[w].ins.contains(k) && m.node[w].in_rec[k] == m.edge[k].rec);
    }
}

/// Whether an edge other than `k` leads from `v` to `w`.
pub open spec fn joined_besides<N, E>(
    m: GraphModel<N, E>,
    k: Seq<char>,
    v: Seq<char>,
    w: Seq<char>,
) -> bool {
    exists|o: Seq<char>|
        o != k && m.has_edge(o) && #[trigger] m.edge[o].rec.v == v && m.edge[o].rec.w == w
}

/// When one of several parallel edges is removed, its end points stay
/// neighbours, each listed once by the other; when the last edge between
/// them is removed, neither lists the other any more.
pub proof fn law_neighbours_after_removal<N, E>(m: GraphModel<N, E>, k: Seq<char>)
    requires
        m.inv(),
        m.has_edge(k),
    ensures
        ({
            let rec = m.edge[k].rec;
            let r = m.remove_edge(k);
            &&& r.inv()
            &&& r.edges.len() + 1 == m.edges.len()
            &&& r.node[rec.v].sucs.ids.contains(rec.w) <==> joined_besides(m, k, rec.v, rec.w)
            &&& r.node[rec.w].preds.ids.contains(rec.v) <==> joined_besides(m, k, rec.v, rec.w)
            &&& r.node[rec.v].sucs.ids.no_duplicates()
            &&& r.node[rec.w].preds.ids.no_duplicates()
        }),
{
    let rec = m.edge[k].rec;
    let r = m.remove_edge(k);
    assert(m.edge_ok(k));
    m.lemma_unlink_ok(k);
    lemma_without(m.edges, k);
    law_neighbours_follow_edges(r, rec.v, rec.w);
    if r.joined(rec.v, rec.w) {
        let o = choose|o: Seq<char>|
            r.has_edge(o) && #[trigger] r.edge[o].rec.v == rec.v && r.edge[o].rec.w == rec.w;
        assert(m.has_edge(o) && o != k);
        assert(m.edge[o].rec.v == rec.v);
    }
    if joined_besides(m, k, rec.v, rec.w) {
        let o = choose|o: Seq<char>|
            o != k && m.has_edge(o) && #[trigger] m.edge[o].rec.v == rec.v && m.edge[o].rec.w
                == rec.w;
        assert(r.has_edge(o));
        assert(r.edge[o].rec.v == rec.v);
    }
}

/// Once `b` was made the parent of `a`, making `a` the parent of `b` is
/// refused, since it would bring `b` above itself.
pub proof fn law_no_parent_cycle<N, E>(
    m: GraphModel<N, E>,
    a: Seq<char>,
    b: Seq<char>,
    label_a: N,
    label_b: N,
)
    requires
        m.inv(),
        legal_id(a),
        legal_id(b),
        !m.would_cycle(a, Some(b)),
    ensures
        m.set_parent(a, Some(b), label_b, label_a).inv(),
        m.set_parent(a, Some(b), label_b, label_a).parent_of(a) == b,
        m.set_parent(a, Some(b), label_b, label_a).would_cycle(b, Some(a)),
{
    let first = m.ensure_node(b, label_b);
    if !m.has_node(b) {
        m.lemma_add_node_ok(b, label_b);
        m.lemma_add_node_chains(b, label_b, b, a);
    }
    let second = first.ensure_node(a, label_a);
    if !first.has_node(a) {
        first.lemma_add_node_ok(a, label_a);
        first.lemma_add_node_chains(a, label_a, b, a);
    }
    lemma_push_contains(m.nodes, b);
    lemma_push_contains(first.nodes, a);
    assert(m.ancestor(b, 0) == b);
    assert(a != b);
    second.lemma_reparent_ok(a, b);
    second.lemma_reparent_shape(a, b);
    let after = second.reparent(a, b);
    assert(after.parent_of(a) == b);
    assert(after.ancestor(b, 0) == b);
    assert(after.ancestor(a, 1) == after.ancestor(after.parent_of(a), 0));
    assert(after.on_chain(a, b));
}

} // verus!
