//! What removing a node does, said directly: the node goes, with it go
//! exactly the edges at it, and its children come to the top level.

use crate::edge::{lemma_legal_not_sentinel, sentinel};
use crate::model::{lemma_without, lemma_without_first, seq_without, GraphModel};
use vstd::prelude::*;

verus! {

impl<N, E> GraphModel<N, E> {
    /// Whether `after` is this graph without some of its edges: the same
    /// nodes with the same labels and the same places in the hierarchy, and
    /// of the edges, with their labels, all but those in `gone`.
    pub open spec fn lost_edges(self, after: Self, gone: Seq<Seq<char>>) -> bool {
        &&& after.nodes == self.nodes
        &&& after.root_children == self.root_children
        &&& after.directed == self.directed
        &&& after.multigraph == self.multigraph
        &&& after.compound == self.compound
        &&& forall|k: Seq<char>| #[trigger] after.has_edge(k) <==> self.has_edge(k) && !gone.contains(k)
        &&& forall|k: Seq<char>| #[trigger] after.has_edge(k) ==> after.edge[k] == self.edge[k]
        &&& forall|x: Seq<char>| #[trigger]
            self.has_node(x) ==> {
                &&& after.node[x].label == self.node[x].label
                &&& after.node[x].parent == self.node[x].parent
                &&& after.node[x].children == self.node[x].children
                &&& forall|k: Seq<char>| #[trigger]
                    after.node[x].ins.contains(k) <==> self.node[x].ins.contains(k)
                        && !gone.contains(k)
                &&& forall|k: Seq<char>| #[trigger]
                    after.node[x].outs.contains(k) <==> self.node[x].outs.contains(k)
                        && !gone.contains(k)
            }
    }

    /// Removing edges leaves a consistent graph that has lost these edges
    /// and nothing else.
    pub proof fn lemma_remove_edges(self, keys: Seq<Seq<char>>)
        requires
            self.inv(),
        ensures
            self.remove_edges(keys).inv(),
            self.lost_edges(self.remove_edges(keys), keys),
        decreases keys.len(),
    {
        let r = self.remove_edges(keys);
        if keys.len() == 0 {
            assert(self.lost_edges(r, keys));
        } else {
            let front = keys.drop_last();
            let k = keys.last();
            let prev = self.remove_edges(front);
            self.lemma_remove_edges(front);
            assert(keys[keys.len() - 1] == k);
            assert forall|e: Seq<char>| #[trigger] keys.contains(e) <==> front.contains(e) || e
                == k by {
                if front.contains(e) {
                    let i = front.index_of(e);
                    assert(keys[i] == e);
                }
                if keys.contains(e) && e != k {
                    let i = keys.index_of(e);
                    assert(front[i] == e);
                }
            }
            if prev.has_edge(k) {
                prev.lemma_unlink_ok(k);
                lemma_without(prev.edges, k);
                assert(prev.edge_ok(k));
                assert forall|x: Seq<char>| #[trigger] self.has_node(x) implies {
                    &&& r.node[x].label == self.node[x].label
                    &&& r.node[x].parent == self.node[x].parent
                    &&& r.node[x].children == self.node[x].children
                    &&& forall|e: Seq<char>| #[trigger]
                        r.node[x].ins.contains(e) <==> self.node[x].ins.contains(e)
                            && !keys.contains(e)
                    &&& forall|e: Seq<char>| #[trigger]
                        r.node[x].outs.contains(e) <==> self.node[x].outs.contains(e)
                            && !keys.contains(e)
                } by {
                    prev.lemma_unlink_fields(k, x);
                    assert(prev.node_edges_ok(x));
                    lemma_without(prev.node[x].ins, k);
                    lemma_without(prev.node[x].outs, k);
                    assert forall|e: Seq<char>| #[trigger]
                        r.node[x].ins.contains(e) <==> self.node[x].ins.contains(e)
                            && !keys.contains(e) by {
                        assert(prev.node[x].ins.contains(e) <==> self.node[x].ins.contains(e)
                            && !front.contains(e));
                    }
                    assert forall|e: Seq<char>| #[trigger]
                        r.node[x].outs.contains(e) <==> self.node[x].outs.contains(e)
                            && !keys.contains(e) by {
                        assert(prev.node[x].outs.contains(e) <==> self.node[x].outs.contains(e)
                            && !front.contains(e));
                    }
                }
                assert forall|e: Seq<char>| #[trigger]
                    r.has_edge(e) <==> self.has_edge(e) && !keys.contains(e) by {
                    assert(prev.has_edge(e) <==> self.has_edge(e) && !front.contains(e));
                }
                assert forall|e: Seq<char>| #[trigger] r.has_edge(e) implies r.edge[e]
                    == self.edge[e] by {
                    assert(prev.has_edge(e));
                }
                prev.lemma_unlink_fields(k, self.nodes[0]);
                assert(self.lost_edges(r, keys));
            } else {
                assert(r == prev);
                assert forall|e: Seq<char>| #[trigger]
                    r.has_edge(e) <==> self.has_edge(e) && !keys.contains(e) by {
                    assert(prev.has_edge(e) <==> self.has_edge(e) && !front.contains(e));
                }
                assert forall|x: Seq<char>| #[trigger] self.has_node(x) implies {
                    &&& forall|e: Seq<char>| #[trigger]
                        r.node[x].ins.contains(e) <==> self.node[x].ins.contains(e)
                            && !keys.contains(e)
                    &&& forall|e: Seq<char>| #[trigger]
                        r.node[x].outs.contains(e) <==> self.node[x].outs.contains(e)
                            && !keys.contains(e)
                } by {
                    assert(prev.node_edges_ok(x));
                    assert forall|e: Seq<char>| #[trigger]
                        r.node[x].ins.contains(e) <==> self.node[x].ins.contains(e)
                            && !keys.contains(e) by {
                        assert(prev.node[x].ins.contains(e) <==> self.node[x].ins.contains(e)
                            && !front.contains(e));
                    }
                    assert forall|e: Seq<char>| #[trigger]
                        r.node[x].outs.contains(e) <==> self.node[x].outs.contains(e)
                            && !keys.contains(e) by {
                        assert(prev.node[x].outs.contains(e) <==> self.node[x].outs.contains(e)
                            && !front.contains(e));
                    }
                }
                assert(self.lost_edges(r, keys));
            }
        }
    }

    /// Whether `after` is this graph with the first `j` children of `v`
    /// moved to the top level: the same nodes, edges, labels and lists of
    /// edges; the moved nodes without parent, all others with the parent
    /// they had; and the remaining children under `v`.
    pub open spec fn released(self, after: Self, v: Seq<char>, j: int) -> bool {
        let kids = self.node[v].children;
        &&& after.nodes == self.nodes
        &&& after.edges == self.edges
        &&& after.edge == self.edge
        &&& after.directed == self.directed
        &&& after.multigraph == self.multigraph
        &&& after.compound == self.compound
        &&& after.node[v].children == kids.skip(j)
        &&& forall|x: Seq<char>| #[trigger]
            self.has_node(x) ==> {
                &&& after.node[x].label == self.node[x].label
                &&& after.node[x].ins == self.node[x].ins
                &&& after.node[x].outs == self.node[x].outs
                &&& after.node[x].parent == if kids.take(j).contains(x) {
                    sentinel()
                } else {
                    self.node[x].parent
                }
            }
    }

    /// Moving the first `j` children of a node to the top level leaves a
    /// consistent graph in which just that has happened.
    pub proof fn lemma_release(self, v: Seq<char>, j: int)
        requires
            self.inv(),
            self.has_node(v),
            0 <= j <= self.node[v].children.len(),
        ensures
            self.release(self.node[v].children.take(j)).inv(),
            self.released(self.release(self.node[v].children.take(j)), v, j),
        decreases j,
    {
        let kids = self.node[v].children;
        let r = self.release(kids.take(j));
        assert(self.place_ok(v));
        lemma_legal_not_sentinel(v);
        if j == 0 {
            assert(kids.take(0) =~= Seq::<Seq<char>>::empty());
            assert(kids.skip(0) =~= kids);
            assert(self.released(r, v, 0));
        } else {
            assert(kids.take(j).drop_last() =~= kids.take(j - 1));
            let prev = self.release(kids.take(j - 1));
            self.lemma_release(v, j - 1);
            let c = kids.take(j).last();
            assert(c == kids[j - 1]);
            assert(kids.contains(c));
            lemma_without_first(kids, j - 1);
            assert(kids.skip(j - 1)[0] == c);
            assert(prev.node[v].children.contains(c));
            assert(prev.place_ok(v));
            lemma_legal_not_sentinel(c);
            prev.lemma_reparent_ok(c, sentinel());
            prev.lemma_reparent_shape(c, sentinel());
            assert(r == prev.reparent(c, sentinel()));
            assert(prev.children_of(v) == prev.node[v].children);
            assert(r.children_of(v) == prev.moved_list(v, c, v, sentinel()));
            assert forall|x: Seq<char>| #[trigger] self.has_node(x) implies r.node[x].parent == if kids.take(
                j,
            ).contains(x) {
                sentinel()
            } else {
                self.node[x].parent
            } by {
                assert(kids.take(j)[j - 1] == c);
                if kids.take(j - 1).contains(x) {
                    let i = kids.take(j - 1).index_of(x);
                    assert(kids.take(j)[i] == x);
                }
                if kids.take(j).contains(x) && x != c {
                    let i = kids.take(j).index_of(x);
                    assert(kids.take(j - 1)[i] == x);
                }
            }
            assert(self.released(r, v, j));
        }
    }
}

impl<N, E> GraphModel<N, E> {
    /// The graph without the edges at the node `v`.
    pub open spec fn bare(self, v: Seq<char>) -> Self {
        let a = self.remove_edges(self.node[v].ins);
        a.remove_edges(a.node[v].outs)
    }

    /// Removing the edges at a node leaves a consistent graph in which the
    /// node has no edges, and which has lost the edges at the node and
    /// nothing else.
    pub proof fn lemma_bare(self, v: Seq<char>)
        requires
            self.inv(),
            self.has_node(v),
        ensures
            self.bare(v).inv(),
            self.bare(v).nodes == self.nodes,
            self.bare(v).root_children == self.root_children,
            self.bare(v).node[v].ins.len() == 0,
            self.bare(v).node[v].outs.len() == 0,
            forall|k: Seq<char>| #[trigger]
                self.bare(v).has_edge(k) <==> self.has_edge(k) && self.edge[k].rec.v != v
                    && self.edge[k].rec.w != v,
            forall|k: Seq<char>| #[trigger]
                self.bare(v).has_edge(k) ==> self.bare(v).edge[k] == self.edge[k],
            forall|x: Seq<char>| #[trigger]
                self.has_node(x) ==> self.bare(v).node[x].label == self.node[x].label
                    && self.bare(v).node[x].parent == self.node[x].parent && self.bare(
                    v,
                ).node[x].children == self.node[x].children,
    {
        let ins = self.node[v].ins;
        let a = self.remove_edges(ins);
        self.lemma_remove_edges(ins);
        assert(self.lost_edges(a, ins));
        assert(a.has_node(v));
        let outs = a.node[v].outs;
        let b = a.remove_edges(outs);
        a.lemma_remove_edges(outs);
        assert(a.lost_edges(b, outs));
        assert(b.has_node(v));
        assert(self.node_edges_ok(v));
        assert(b.node[v].ins.len() == 0) by {
            if b.node[v].ins.len() > 0 {
                let k = b.node[v].ins[0];
                assert(b.node[v].ins.contains(k));
                assert(a.node[v].ins.contains(k));
                assert(self.node[v].ins.contains(k) && !ins.contains(k));
            }
        }
        assert(b.node[v].outs.len() == 0) by {
            if b.node[v].outs.len() > 0 {
                let k = b.node[v].outs[0];
                assert(b.node[v].outs.contains(k));
                assert(a.node[v].outs.contains(k) && !outs.contains(k));
            }
        }
        assert forall|k: Seq<char>| #[trigger]
            b.has_edge(k) <==> self.has_edge(k) && self.edge[k].rec.v != v && self.edge[k].rec.w
                != v by {
            assert(a.has_edge(k) <==> self.has_edge(k) && !ins.contains(k));
            assert(b.has_edge(k) <==> a.has_edge(k) && !outs.contains(k));
            if self.has_edge(k) {
                assert(self.edge_ok(k));
                assert(a.node[v].outs.contains(k) <==> self.node[v].outs.contains(k)
                    && !ins.contains(k));
            }
        }
        assert forall|k: Seq<char>| #[trigger] b.has_edge(k) implies b.edge[k] == self.edge[k] by {
            assert(a.has_edge(k) <==> self.has_edge(k) && !ins.contains(k));
            assert(b.has_edge(k) <==> a.has_edge(k) && !outs.contains(k));
            assert(a.has_edge(k));
        }
        assert forall|x: Seq<char>| #[trigger] self.has_node(x) implies b.node[x].label
            == self.node[x].label && b.node[x].parent == self.node[x].parent && b.node[x].children
            == self.node[x].children by {
            assert(a.has_node(x));
        }
    }
}

/// Removing a node leaves a consistent graph. Its nodes are the others, in
/// their order and with their labels. Its edges are those that did not
/// touch the node, with their labels. The children of the node have come
/// to the top level, and every other node has the parent that it had.
pub proof fn law_remove_node<N, E>(m: GraphModel<N, E>, v: Seq<char>)
    requires
        m.inv(),
        m.has_node(v),
    ensures
        ({
            let r = m.remove_node(v);
            &&& r.inv()
            &&& r.nodes == seq_without(m.nodes, v)
            &&& !r.has_node(v)
            &&& forall|k: Seq<char>| #[trigger]
                r.has_edge(k) <==> m.has_edge(k) && m.edge[k].rec.v != v && m.edge[k].rec.w != v
            &&& forall|k: Seq<char>| #[trigger] r.has_edge(k) ==> r.edge[k] == m.edge[k]
            &&& forall|x: Seq<char>| #[trigger]
                r.has_node(x) ==> r.node[x].label == m.node[x].label && r.node[x].parent == if m.node[x].parent
                    == v {
                    sentinel()
                } else {
                    m.node[x].parent
                }
        }),
{
    let b = m.bare(v);
    m.lemma_bare(v);
    let kids = b.node[v].children;
    let c = b.release(kids);
    assert(kids.take(kids.len() as int) =~= kids);
    b.lemma_release(v, kids.len() as int);
    assert(b.released(c, v, kids.len() as int));
    let r = c.detach(v).drop_node(v);
    assert(r == m.remove_node(v));
    assert(c.has_node(v));
    assert(c.node[v].children.len() == 0);
    assert(b.has_node(v));
    assert(c.node[v].ins == b.node[v].ins);
    assert(c.node[v].outs == b.node[v].outs);
    c.lemma_drop_ok(v);
    lemma_without(m.nodes, v);
    lemma_legal_not_sentinel(v);
    assert(c.place_ok(v));
    assert(r.edges == c.edges);
    assert(r.edge == c.edge);
    assert forall|x: Seq<char>| #[trigger] r.has_node(x) implies r.node[x].label
        == m.node[x].label && r.node[x].parent == if m.node[x].parent == v {
        sentinel()
    } else {
        m.node[x].parent
    } by {
        assert(m.has_node(x) && x != v);
        assert(b.has_node(x));
        assert(c.has_node(x));
        b.lemma_listed_once(v, x);
        assert(b.children_of(v) == kids);
        assert(r.node[x].label == c.node[x].label);
        assert(r.node[x].parent == c.node[x].parent);
    }
    assert(c.edges == b.edges && c.edge == b.edge);
    assert forall|k: Seq<char>| #[trigger]
        r.has_edge(k) <==> m.has_edge(k) && m.edge[k].rec.v != v && m.edge[k].rec.w != v by {
        assert(r.has_edge(k) == b.has_edge(k));
    }
    assert forall|k: Seq<char>| #[trigger] r.has_edge(k) implies r.edge[k] == m.edge[k] by {
        assert(b.has_edge(k));
    }
    assert(r.nodes == seq_without(m.nodes, v));
    assert(!r.has_node(v));
    assert(r.inv());
}

} // verus!
