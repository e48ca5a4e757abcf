//! Proofs that the operations on edges keep a graph consistent.

use crate::edge::{edge_key, is_canonical, EdgeView};
use crate::model::{
    far_end, keep, lemma_fewer_agrees, lemma_keep_subset, lemma_more_agrees, lemma_push_contains,
    lemma_tally_bounds, lemma_without, seq_without, GraphModel, NodeModel,
};
use vstd::prelude::*;

verus! {

impl<N> NodeModel<N> {
    /// A new incoming edge keeps the node's lists consistent.
    pub proof fn lemma_with_in(self, k: Seq<char>, rec: EdgeView)
        requires
            self.adjacency_ok(),
            !self.ins.contains(k),
            self.ins.len() < usize::MAX,
        ensures
            self.with_in(k, rec).adjacency_ok(),
            forall|x: Seq<char>| #[trigger]
                self.with_in(k, rec).ins.contains(x) <==> self.ins.contains(x) || x == k,
    {
        lemma_push_contains(self.ins, k);
        lemma_more_agrees(self.preds, self.ins, self.in_rec, true, k, rec);
        let after = self.with_in(k, rec);
        assert forall|x: Seq<char>| #[trigger]
            after.in_rec.dom().contains(x) <==> after.ins.contains(x) by {
            assert(self.in_rec.dom().contains(x) <==> self.ins.contains(x));
        }
    }

    /// A new outgoing edge keeps the node's lists consistent.
    pub proof fn lemma_with_out(self, k: Seq<char>, rec: EdgeView)
        requires
            self.adjacency_ok(),
            !self.outs.contains(k),
            self.outs.len() < usize::MAX,
        ensures
            self.with_out(k, rec).adjacency_ok(),
            forall|x: Seq<char>| #[trigger]
                self.with_out(k, rec).outs.contains(x) <==> self.outs.contains(x) || x == k,
    {
        lemma_push_contains(self.outs, k);
        lemma_more_agrees(self.sucs, self.outs, self.out_rec, false, k, rec);
        let after = self.with_out(k, rec);
        assert forall|x: Seq<char>| #[trigger]
            after.out_rec.dom().contains(x) <==> after.outs.contains(x) by {
            assert(self.out_rec.dom().contains(x) <==> self.outs.contains(x));
        }
    }

    /// An incoming edge that leaves keeps the node's lists consistent, and
    /// its source was counted among the predecessors.
    pub proof fn lemma_without_in(self, k: Seq<char>)
        requires
            self.adjacency_ok(),
            self.ins.contains(k),
        ensures
            self.without_in(k, self.in_rec[k]).adjacency_ok(),
            forall|x: Seq<char>| #[trigger]
                self.without_in(k, self.in_rec[k]).ins.contains(x) <==> self.ins.contains(x) && x
                    != k,
            self.preds.ids.contains(self.in_rec[k].v),
            self.preds.count[self.in_rec[k].v] >= 1,
    {
        lemma_without(self.ins, k);
        lemma_fewer_agrees(self.preds, self.ins, self.in_rec, true, k);
        let after = self.without_in(k, self.in_rec[k]);
        assert forall|x: Seq<char>| #[trigger]
            after.in_rec.dom().contains(x) <==> after.ins.contains(x) by {
            assert(self.in_rec.dom().contains(x) <==> self.ins.contains(x));
        }
    }

    /// An outgoing edge that leaves keeps the node's lists consistent, and
    /// its target was counted among the successors.
    pub proof fn lemma_without_out(self, k: Seq<char>)
        requires
            self.adjacency_ok(),
            self.outs.contains(k),
        ensures
            self.without_out(k, self.out_rec[k]).adjacency_ok(),
            forall|x: Seq<char>| #[trigger]
                self.without_out(k, self.out_rec[k]).outs.contains(x) <==> self.outs.contains(x)
                    && x != k,
            self.sucs.ids.contains(self.out_rec[k].w),
            self.sucs.count[self.out_rec[k].w] >= 1,
    {
        lemma_without(self.outs, k);
        lemma_fewer_agrees(self.sucs, self.outs, self.out_rec, false, k);
        let after = self.without_out(k, self.out_rec[k]);
        assert forall|x: Seq<char>| #[trigger]
            after.out_rec.dom().contains(x) <==> after.outs.contains(x) by {
            assert(self.out_rec.dom().contains(x) <==> self.outs.contains(x));
        }
    }
}

impl<N, E> GraphModel<N, E> {
    /// The hierarchy does not move when only labels and edge lists change.
    pub proof fn lemma_same_hierarchy(self, after: Self)
        requires
            self.hierarchy_ok(),
            after.nodes == self.nodes,
            after.root_children == self.root_children,
            forall|x: Seq<char>| #[trigger]
                self.nodes.contains(x) ==> after.node[x].parent == self.node[x].parent
                    && after.node[x].children == self.node[x].children,
        ensures
            after.hierarchy_ok(),
    {
        assert forall|x: Seq<char>| #[trigger] after.nodes.contains(x) implies after.place_ok(x) by {
            assert(self.place_ok(x));
        }
        let rank = choose|rank: Map<Seq<char>, nat>| self.ranked(rank);
        assert(after.ranked(rank));
    }

    /// A new label on an edge changes nothing else.
    pub proof fn lemma_relabel_edge_ok(self, k: Seq<char>, label: E)
        requires
            self.inv(),
            self.has_edge(k),
        ensures
            self.relabel_edge(k, label).inv(),
    {
        let after = self.relabel_edge(k, label);
        assert forall|x: Seq<char>| #[trigger] after.edges.contains(x) implies after.edge_ok(x) by {
            assert(self.edge_ok(x));
        }
        assert forall|x: Seq<char>| #[trigger] after.nodes.contains(x) implies after.node_edges_ok(
            x,
        ) by {
            assert(self.node_edges_ok(x));
        }
        self.lemma_same_hierarchy(after);
    }

    /// A new edge between two nodes leaves the graph consistent.
    pub proof fn lemma_link_ok(self, k: Seq<char>, rec: EdgeView, label: E)
        requires
            self.inv(),
            !self.has_edge(k),
            k == edge_key(self.directed, rec.v, rec.w, rec.name),
            is_canonical(self.directed, rec),
            rec.name.is_some() ==> self.multigraph,
            self.has_node(rec.v),
            self.has_node(rec.w),
            self.node[rec.w].ins.len() < usize::MAX,
            self.node[rec.v].outs.len() < usize::MAX,
        ensures
            self.link(k, rec, label).inv(),
    {
        let after = self.link(k, rec, label);
        let target = self.node.insert(rec.w, self.node[rec.w].with_in(k, rec));
        assert(self.node_edges_ok(rec.w));
        assert(self.node_edges_ok(rec.v));
        self.node[rec.w].lemma_with_in(k, rec);
        target[rec.v].lemma_with_out(k, rec);
        lemma_push_contains(self.edges, k);
        assert forall|x: Seq<char>| #[trigger] after.nodes.contains(x) implies after.node_edges_ok(
            x,
        ) by {
            assert(self.node_edges_ok(x));
            let n = after.node[x];
            if x != rec.w && x != rec.v {
                assert(n == self.node[x]);
            }
            assert forall|e: Seq<char>| #[trigger] n.ins.contains(e) implies after.edges.contains(e)
                && after.edge[e].rec == n.in_rec[e] && n.in_rec[e].w == x by {
                if e != k {
                    assert(self.node[x].ins.contains(e));
                }
            }
            assert forall|e: Seq<char>| #[trigger] n.outs.contains(e) implies after.edges.contains(
                e,
            ) && after.edge[e].rec == n.out_rec[e] && n.out_rec[e].v == x by {
                if e != k {
                    assert(self.node[x].outs.contains(e));
                }
            }
        }
        assert forall|e: Seq<char>| #[trigger] after.edges.contains(e) implies after.edge_ok(e) by {
            if e != k {
                assert(self.edge_ok(e));
                let r = self.edge[e].rec;
                assert(self.node_edges_ok(r.w));
                assert(self.node_edges_ok(r.v));
            }
        }
        self.lemma_same_hierarchy(after);
    }

    /// Taking an edge out leaves the graph consistent.
    pub proof fn lemma_unlink_ok(self, k: Seq<char>)
        requires
            self.inv(),
            self.has_edge(k),
        ensures
            self.unlink(k).inv(),
    {
        let after = self.unlink(k);
        let rec = self.edge[k].rec;
        assert(self.edge_ok(k));
        let target = self.node.insert(rec.w, self.node[rec.w].without_in(k, rec));
        assert(self.node_edges_ok(rec.w));
        assert(self.node_edges_ok(rec.v));
        self.node[rec.w].lemma_without_in(k);
        target[rec.v].lemma_without_out(k);
        lemma_without(self.edges, k);
        assert forall|x: Seq<char>| #[trigger] after.nodes.contains(x) implies after.node_edges_ok(
            x,
        ) by {
            assert(self.node_edges_ok(x));
            let n = after.node[x];
            if x != rec.w && x != rec.v {
                assert(n == self.node[x]);
                assert forall|e: Seq<char>| #[trigger] n.ins.contains(e) implies e != k by {
                    if e == k {
                        assert(self.node[x].in_rec[e].w == x);
                    }
                }
                assert forall|e: Seq<char>| #[trigger] n.outs.contains(e) implies e != k by {
                    if e == k {
                        assert(self.node[x].out_rec[e].v == x);
                    }
                }
            } else {
                if x != rec.w {
                    assert forall|e: Seq<char>| #[trigger] n.ins.contains(e) implies e != k by {
                        if e == k {
                            assert(self.node[x].in_rec[e].w == x);
                        }
                    }
                }
                if x != rec.v {
                    assert forall|e: Seq<char>| #[trigger] n.outs.contains(e) implies e != k by {
                        if e == k {
                            assert(self.node[x].out_rec[e].v == x);
                        }
                    }
                }
            }
            assert forall|e: Seq<char>| #[trigger] n.ins.contains(e) implies after.edges.contains(e)
                && after.edge[e].rec == n.in_rec[e] && n.in_rec[e].w == x by {
                assert(self.node[x].ins.contains(e));
            }
            assert forall|e: Seq<char>| #[trigger] n.outs.contains(e) implies after.edges.contains(
                e,
            ) && after.edge[e].rec == n.out_rec[e] && n.out_rec[e].v == x by {
                assert(self.node[x].outs.contains(e));
            }
        }
        assert forall|e: Seq<char>| #[trigger] after.edges.contains(e) implies after.edge_ok(e) by {
            assert(self.edge_ok(e));
            let r = self.edge[e].rec;
            assert(self.node_edges_ok(r.w));
            assert(self.node_edges_ok(r.v));
        }
        self.lemma_same_hierarchy(after);
    }

    /// Taking the edge `k` out takes it out of the lists of its end points
    /// and leaves every other list, and the hierarchy, as they were.
    pub proof fn lemma_unlink_fields(self, k: Seq<char>, x: Seq<char>)
        requires
            self.inv(),
            self.has_edge(k),
            self.has_node(x),
        ensures
            self.unlink(k).nodes == self.nodes,
            self.unlink(k).node[x].children == self.node[x].children,
            self.unlink(k).node[x].parent == self.node[x].parent,
            self.unlink(k).node[x].label == self.node[x].label,
            self.unlink(k).node[x].ins == if self.edge[k].rec.w == x {
                seq_without(self.node[x].ins, k)
            } else {
                self.node[x].ins
            },
            self.unlink(k).node[x].outs == if self.edge[k].rec.v == x {
                seq_without(self.node[x].outs, k)
            } else {
                self.node[x].outs
            },
    {
        assert(self.edge_ok(k));
    }

    /// In a consistent graph every predecessor and every successor of a
    /// node is a node, and an edge joins them.
    pub proof fn lemma_neighbour_is_node(self, v: Seq<char>, u: Seq<char>, incoming: bool)
        requires
            self.inv(),
            self.has_node(v),
            if incoming {
                self.node[v].preds.ids.contains(u)
            } else {
                self.node[v].sucs.ids.contains(u)
            },
        ensures
            self.has_node(u),
            exists|k: Seq<char>|
                self.has_edge(k) && #[trigger] self.edge[k].rec.v == (if incoming {
                    u
                } else {
                    v
                }) && self.edge[k].rec.w == (if incoming {
                    v
                } else {
                    u
                }),
    {
        assert(self.node_edges_ok(v));
        let n = self.node[v];
        if incoming {
            lemma_tally_bounds(n.ins, n.in_rec, true, u);
            let k = choose|k: Seq<char>| n.ins.contains(k) && far_end(#[trigger] n.in_rec[k], true) == u;
            assert(n.ins.contains(k));
            assert(self.edge_ok(k));
            assert(self.edge[k].rec.v == u && self.edge[k].rec.w == v);
        } else {
            lemma_tally_bounds(n.outs, n.out_rec, false, u);
            let k = choose|k: Seq<char>|
                n.outs.contains(k) && far_end(#[trigger] n.out_rec[k], false) == u;
            assert(n.outs.contains(k));
            assert(self.edge_ok(k));
            assert(self.edge[k].rec.v == v && self.edge[k].rec.w == u);
        }
    }

    /// In a consistent graph every step from a node leads to a node.
    pub proof fn lemma_steps_are_nodes(self, v: Seq<char>, u: Seq<char>)
        requires
            self.inv(),
            self.has_node(v),
            self.steps(v).contains(u),
        ensures
            self.has_node(u),
    {
        let n = self.node[v];
        if self.directed {
            self.lemma_neighbour_is_node(v, u, false);
        } else {
            let ok = |x: Seq<char>| !n.preds.ids.contains(x);
            let rest = keep(n.sucs.ids, ok);
            let all = n.preds.ids + rest;
            let i = all.index_of(u);
            if i < n.preds.ids.len() {
                assert(n.preds.ids[i] == u);
                self.lemma_neighbour_is_node(v, u, true);
            } else {
                assert(rest[i - n.preds.ids.len()] == u);
                lemma_keep_subset(n.sucs.ids, ok, u);
                self.lemma_neighbour_is_node(v, u, false);
            }
        }
    }
}

} // verus!
