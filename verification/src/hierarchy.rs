//! Proofs about the hierarchy of a compound graph: that moving a node under
//! a new parent, and taking a node out, keep the graph consistent.

use crate::edge::{lemma_legal_not_sentinel, sentinel};
use crate::model::{lemma_push_contains, lemma_without, seq_without, GraphModel};
use vstd::prelude::*;

verus! {

impl<N, E> GraphModel<N, E> {
    /// Nodes, edges and adjacency do not move when only parents and child
    /// lists change.
    pub proof fn lemma_same_adjacency(self, after: Self)
        requires
            self.nodes_ok(),
            self.edges_ok(),
            after.directed == self.directed,
            after.multigraph == self.multigraph,
            after.nodes == self.nodes,
            after.edges == self.edges,
            after.edge == self.edge,
            forall|x: Seq<char>| #[trigger] after.node.dom().contains(x) <==> self.node.dom().contains(x),
            forall|x: Seq<char>| #[trigger]
                self.nodes.contains(x) ==> {
                    &&& after.node[x].ins == self.node[x].ins
                    &&& after.node[x].in_rec == self.node[x].in_rec
                    &&& after.node[x].outs == self.node[x].outs
                    &&& after.node[x].out_rec == self.node[x].out_rec
                    &&& after.node[x].preds == self.node[x].preds
                    &&& after.node[x].sucs == self.node[x].sucs
                },
        ensures
            after.nodes_ok(),
            after.edges_ok(),
    {
        assert forall|k: Seq<char>| #[trigger] after.edges.contains(k) implies after.edge_ok(k) by {
            assert(self.edge_ok(k));
        }
        assert forall|x: Seq<char>| #[trigger] after.nodes.contains(x) implies after.node_edges_ok(
            x,
        ) by {
            assert(self.node_edges_ok(x));
        }
    }

    /// One step further up is the parent of where one stood.
    pub proof fn lemma_ancestor_step(self, u: Seq<char>, n: nat)
        ensures
            self.ancestor(u, n + 1) == self.parent_of(self.ancestor(u, n)),
        decreases n,
    {
        let up = self.parent_of(u);
        assert(self.ancestor(u, n + 1) == self.ancestor(up, n));
        if n > 0 {
            self.lemma_ancestor_step(up, (n - 1) as nat);
            assert(self.ancestor(u, n) == self.ancestor(up, (n - 1) as nat));
        } else {
            assert(self.ancestor(up, 0) == up);
            assert(self.ancestor(u, 0) == u);
        }
    }

    /// Above the top level there is only the top level.
    pub proof fn lemma_ancestor_top(self, n: nat)
        requires
            self.nodes_ok(),
        ensures
            self.ancestor(sentinel(), n) == sentinel(),
        decreases n,
    {
        if self.nodes.contains(sentinel()) {
            lemma_legal_not_sentinel(sentinel());
        }
        if n > 0 {
            self.lemma_ancestor_top((n - 1) as nat);
        }
    }

    /// Once a chain has reached the top level it stays there.
    pub proof fn lemma_chain_ends(self, u: Seq<char>, i: nat, n: nat)
        requires
            self.nodes_ok(),
            self.ancestor(u, i) == sentinel(),
            i <= n,
        ensures
            self.ancestor(u, n) == sentinel(),
        decreases n - i,
    {
        if i < n {
            self.lemma_ancestor_step(u, i);
            if self.nodes.contains(sentinel()) {
                lemma_legal_not_sentinel(sentinel());
            }
            self.lemma_chain_ends(u, i + 1, n);
        }
    }

    /// Two graphs in which every node has the same parent have the same
    /// chains.
    pub proof fn lemma_same_chains(self, other: Self, u: Seq<char>, n: nat)
        requires
            forall|x: Seq<char>| #[trigger] self.parent_of(x) == other.parent_of(x),
        ensures
            self.ancestor(u, n) == other.ancestor(u, n),
        decreases n,
    {
        if n > 0 {
            assert(self.parent_of(u) == other.parent_of(u));
            self.lemma_same_chains(other, self.parent_of(u), (n - 1) as nat);
        }
    }

    /// A new node changes no chain.
    pub proof fn lemma_add_node_chains(self, x: Seq<char>, label: N, p: Seq<char>, v: Seq<char>)
        requires
            self.inv(),
            !self.has_node(x),
        ensures
            self.add_node(x, label).on_chain(p, v) == self.on_chain(p, v),
    {
        let after = self.add_node(x, label);
        lemma_push_contains(self.nodes, x);
        assert forall|y: Seq<char>| #[trigger] self.parent_of(y) == after.parent_of(y) by {}
        if self.on_chain(p, v) {
            let n = choose|n: nat| self.ancestor(p, n) == v;
            self.lemma_same_chains(after, p, n);
        }
        if after.on_chain(p, v) {
            let n = choose|n: nat| after.ancestor(p, n) == v;
            self.lemma_same_chains(after, p, n);
        }
    }

    /// What moving `v` under `p` does to parents and child lists.
    pub proof fn lemma_reparent_shape(self, v: Seq<char>, p: Seq<char>)
        requires
            self.inv(),
            self.has_node(v),
            p == sentinel() || self.has_node(p),
            p != v,
        ensures
            ({
                let after = self.reparent(v, p);
                let o = self.node[v].parent;
                &&& after.directed == self.directed
                &&& after.multigraph == self.multigraph
                &&& after.compound == self.compound
                &&& after.nodes == self.nodes
                &&& after.edges == self.edges
                &&& after.edge == self.edge
                &&& forall|x: Seq<char>| #[trigger]
                    after.node.dom().contains(x) <==> self.node.dom().contains(x)
                &&& forall|x: Seq<char>| #[trigger]
                    self.nodes.contains(x) ==> {
                        &&& after.node[x].label == self.node[x].label
                        &&& after.node[x].ins == self.node[x].ins
                        &&& after.node[x].in_rec == self.node[x].in_rec
                        &&& after.node[x].outs == self.node[x].outs
                        &&& after.node[x].out_rec == self.node[x].out_rec
                        &&& after.node[x].preds == self.node[x].preds
                        &&& after.node[x].sucs == self.node[x].sucs
                        &&& after.node[x].parent == if x == v {
                            p
                        } else {
                            self.node[x].parent
                        }
                    }
                &&& forall|x: Seq<char>|
                    #![trigger after.children_of(x)]
                    (self.nodes.contains(x) || x == sentinel()) ==> after.children_of(x)
                        == self.moved_list(x, v, o, p)
            }),
    {
        let after = self.reparent(v, p);
        let o = self.node[v].parent;
        assert(self.place_ok(v));
        lemma_legal_not_sentinel(v);
        if self.nodes.contains(sentinel()) {
            lemma_legal_not_sentinel(sentinel());
        }
        assert forall|x: Seq<char>|
            #![trigger after.children_of(x)]
            (self.nodes.contains(x) || x == sentinel()) implies after.children_of(x)
            == self.moved_list(x, v, o, p) by {}
    }

    /// Moving a node keeps it, its new parent and all labels.
    pub proof fn lemma_reparent_shape_of(self, v: Seq<char>, p: Seq<char>)
        requires
            self.inv(),
            self.has_node(v),
            p == sentinel() || self.has_node(p),
            p != v,
        ensures
            self.reparent(v, p).nodes == self.nodes,
            forall|x: Seq<char>| #[trigger]
                self.nodes.contains(x) ==> self.reparent(v, p).node[x].label == self.node[x].label,
    {
        self.lemma_reparent_shape(v, p);
    }

    /// Trying to move a node leaves the nodes of the graph as they are.
    pub proof fn lemma_reparent_keeps_nodes(self, v: Seq<char>, p: Seq<char>)
        requires
            self.inv(),
            self.has_node(v),
            p == sentinel() || self.has_node(p),
        ensures
            self.try_set_parent(v, p).nodes == self.nodes,
            self.try_set_parent(v, p).compound == self.compound,
    {
        lemma_legal_not_sentinel(v);
        if p != sentinel() && !self.on_chain(p, v) {
            assert(self.ancestor(p, 0) == p);
        }
        if p == sentinel() || !self.on_chain(p, v) {
            self.lemma_reparent_shape(v, p);
        }
    }

    /// The child list of `x` after `v` moved from under `o` to under `p`.
    pub open spec fn moved_list(
        self,
        x: Seq<char>,
        v: Seq<char>,
        o: Seq<char>,
        p: Seq<char>,
    ) -> Seq<Seq<char>> {
        let base = if x == o {
            seq_without(self.children_of(x), v)
        } else {
            self.children_of(x)
        };
        if x == p {
            base.push(v)
        } else {
            base
        }
    }

    /// A node stands in the child list of its parent and in no other.
    pub proof fn lemma_listed_once(self, x: Seq<char>, v: Seq<char>)
        requires
            self.inv(),
            self.has_node(v),
            self.has_node(x) || x == sentinel(),
        ensures
            self.children_of(x).contains(v) <==> self.node[v].parent == x,
            self.children_of(x).no_duplicates(),
    {
        assert(self.place_ok(v));
        if x != sentinel() {
            assert(self.place_ok(x));
        }
    }

    /// Moving a node to the top level, or under a node that does not stand
    /// below it, leaves the graph consistent.
    pub proof fn lemma_reparent_ok(self, v: Seq<char>, p: Seq<char>)
        requires
            self.inv(),
            self.has_node(v),
            p == sentinel() || (self.has_node(p) && !self.on_chain(p, v)),
        ensures
            self.reparent(v, p).inv(),
    {
        let after = self.reparent(v, p);
        let o = self.node[v].parent;
        lemma_legal_not_sentinel(v);
        if p != sentinel() {
            assert(self.ancestor(p, 0) == p);
        }
        assert(p != v);
        self.lemma_reparent_shape(v, p);
        self.lemma_same_adjacency(after);
        assert(self.place_ok(v));
        // Child lists.
        assert forall|x: Seq<char>|
            #![trigger after.children_of(x)]
            (self.nodes.contains(x) || x == sentinel()) implies after.children_of(x).no_duplicates()
            && (forall|c: Seq<char>| #[trigger]
            after.children_of(x).contains(c) <==> after.nodes.contains(c) && after.node[c].parent
                == x) by {
            self.lemma_listed_once(x, v);
            let list = self.children_of(x);
            let base = if x == o {
                seq_without(list, v)
            } else {
                list
            };
            lemma_without(list, v);
            lemma_push_contains(base, v);
            assert(after.children_of(x) == self.moved_list(x, v, o, p));
            assert forall|c: Seq<char>| #[trigger]
                after.children_of(x).contains(c) <==> after.nodes.contains(c)
                    && after.node[c].parent == x by {
                if c != v {
                    if self.nodes.contains(c) {
                        self.lemma_listed_once(x, c);
                    }
                    if list.contains(c) {
                        if x == sentinel() {
                        } else {
                            assert(self.place_ok(x));
                        }
                    }
                }
            }
        }
        assert forall|c: Seq<char>| #[trigger] after.root_children.contains(c) implies after.nodes.contains(
            c,
        ) && after.node[c].parent == sentinel() by {
            assert(after.children_of(sentinel()).contains(c));
        }
        assert(after.root_children == after.children_of(sentinel()));
        assert forall|x: Seq<char>| #[trigger] after.nodes.contains(x) implies after.place_ok(x) by {
            assert(self.place_ok(x));
            lemma_legal_not_sentinel(x);
            let q = after.node[x].parent;
            assert(q == sentinel() || self.nodes.contains(q));
            assert(after.children_of(q).contains(x));
            assert(after.children_of(x) == after.node[x].children);
        }
        // Ranks.
        let rank = choose|rank: Map<Seq<char>, nat>| self.ranked(rank);
        if p == sentinel() {
            assert(after.ranked(rank));
        } else {
            let lift = (rank[p] + 1) as nat;
            let rank2 = Map::new(
                |u: Seq<char>| true,
                |u: Seq<char>|
                    if self.on_chain(u, v) {
                        rank[u] + lift
                    } else {
                        rank[u]
                    },
            );
            assert forall|u: Seq<char>| #[trigger]
                after.nodes.contains(u) && after.node[u].parent != sentinel() implies rank2[after.node[u].parent]
                < rank2[u] by {
                let q = after.node[u].parent;
                if u == v {
                    assert(self.ancestor(v, 0) == v);
                    assert(self.on_chain(v, v));
                } else {
                    assert(q == self.node[u].parent);
                    assert(self.parent_of(u) == q);
                    if self.on_chain(u, v) {
                        let n = choose|n: nat| self.ancestor(u, n) == v;
                        assert(n > 0);
                        assert(self.ancestor(q, (n - 1) as nat) == v);
                        assert(self.on_chain(q, v));
                    } else if self.on_chain(q, v) {
                        let n = choose|n: nat| self.ancestor(q, n) == v;
                        assert(self.ancestor(u, n + 1) == v);
                        assert(false);
                    }
                }
            }
            assert(after.ranked(rank2));
        }
    }

    /// A node without edges and without children can be taken out of its
    /// parent's list and out of the graph.
    pub proof fn lemma_drop_ok(self, v: Seq<char>)
        requires
            self.inv(),
            self.has_node(v),
            self.node[v].ins.len() == 0,
            self.node[v].outs.len() == 0,
            self.node[v].children.len() == 0,
        ensures
            self.detach(v).drop_node(v).inv(),
    {
        let after = self.detach(v).drop_node(v);
        let o = self.node[v].parent;
        lemma_legal_not_sentinel(v);
        lemma_without(self.nodes, v);
        assert(self.place_ok(v));
        assert(self.node_edges_ok(v));
        assert forall|k: Seq<char>| #[trigger] after.edges.contains(k) implies after.edge_ok(k) by {
            assert(self.edge_ok(k));
            let rec = self.edge[k].rec;
            if rec.w == v {
                assert(self.node[v].ins.contains(k));
            }
            if rec.v == v {
                assert(self.node[v].outs.contains(k));
            }
        }
        assert forall|x: Seq<char>| #[trigger] after.nodes.contains(x) implies after.node_edges_ok(
            x,
        ) by {
            assert(self.node_edges_ok(x));
        }
        lemma_without(self.children_of(o), v);
        assert forall|c: Seq<char>| #[trigger] after.root_children.contains(c) implies after.nodes.contains(
            c,
        ) && after.node[c].parent == sentinel() by {
            assert(self.root_children.contains(c));
        }
        assert forall|x: Seq<char>| #[trigger] after.nodes.contains(x) implies after.place_ok(x) by {
            assert(self.place_ok(x));
            lemma_legal_not_sentinel(x);
            let q = self.node[x].parent;
            if q == v {
                assert(self.place_ok(v));
                self.lemma_listed_once(v, x);
                assert(self.node[v].children.contains(x));
            }
            if q != sentinel() {
                assert(self.place_ok(q));
            }
            assert forall|c: Seq<char>| #[trigger] after.node[x].children.contains(c) implies after.nodes.contains(
                c,
            ) && after.node[c].parent == x by {
                assert(self.node[x].children.contains(c));
            }
        }
        let rank = choose|rank: Map<Seq<char>, nat>| self.ranked(rank);
        assert(after.ranked(rank));
    }
}

} // verus!
