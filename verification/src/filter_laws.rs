//! What holds of filtering: the copy has the nodes that were kept and the
//! edges between them; and where every node was kept, it has the nodes, the
//! edges and the parents of the graph it was made from.

use crate::edge::{lemma_legal_not_sentinel, lemma_record_canonical, sentinel};
use crate::model::{keep, lemma_keep_subset, lemma_push_contains, GraphModel};
use vstd::prelude::*;

verus! {

impl<N, E> GraphModel<N, E> {
    /// Copying nodes of which the graph has none adds those that are marked
    /// in `keep`, in their order and each at the top level, and changes
    /// nothing else.
    pub proof fn lemma_copy_nodes(self, ids: Seq<Seq<char>>, keep: Seq<bool>, labels: Seq<N>)
        requires
            ids.no_duplicates(),
            forall|i: int| 0 <= i < ids.len() ==> !self.nodes.contains(#[trigger] ids[i]),
            keep.len() == ids.len(),
            labels.len() == ids.len(),
        ensures
            ({
                let r = self.copy_nodes(ids, keep, labels);
                &&& r.nodes == self.nodes + picked(ids, keep)
                &&& r.edges == self.edges
                &&& r.edge == self.edge
                &&& r.directed == self.directed
                &&& r.multigraph == self.multigraph
                &&& r.compound == self.compound
                &&& forall|x: Seq<char>| #[trigger]
                    r.parent_of(x) == if self.nodes.contains(x) {
                        self.parent_of(x)
                    } else {
                        sentinel()
                    }
            }),
        decreases ids.len(),
    {
        let r = self.copy_nodes(ids, keep, labels);
        if ids.len() == 0 {
            assert(self.nodes + picked(ids, keep) =~= self.nodes);
        } else {
            let front = ids.drop_last();
            let v = ids.last();
            let prev = self.copy_nodes(front, keep.drop_last(), labels.drop_last());
            assert forall|i: int| 0 <= i < front.len() implies !self.nodes.contains(
                #[trigger] front[i],
            ) by {
                assert(front[i] == ids[i]);
            }
            self.lemma_copy_nodes(front, keep.drop_last(), labels.drop_last());
            assert(ids[ids.len() - 1] == v);
            if keep.last() {
                assert(!prev.nodes.contains(v)) by {
                    if prev.nodes.contains(v) {
                        let i = prev.nodes.index_of(v);
                        if i < self.nodes.len() {
                            assert(self.nodes[i] == v);
                        } else {
                            let x = picked(front, keep.drop_last())[i - self.nodes.len()];
                            assert(picked(front, keep.drop_last()).contains(x));
                            lemma_picked_within(front, keep.drop_last(), x);
                            let a = front.index_of(x);
                            assert(ids[a] == v);
                        }
                    }
                }
                assert(r == prev.add_node(v, labels.last()));
                assert(r.nodes =~= self.nodes + picked(ids, keep));
                lemma_push_contains(prev.nodes, v);
            } else {
                assert(r == prev);
            }
            assert forall|x: Seq<char>| #[trigger]
                r.parent_of(x) == if self.nodes.contains(x) {
                    self.parent_of(x)
                } else {
                    sentinel()
                } by {
                assert(prev.parent_of(x) == if self.nodes.contains(x) {
                    self.parent_of(x)
                } else {
                    sentinel()
                });
                if self.nodes.contains(x) {
                    let i = self.nodes.index_of(x);
                    assert(prev.nodes[i] == x);
                }
            }
        }
    }

    /// Copying the first `j` edges of `source` into a graph of the same
    /// kind that has some of the nodes of `source` and no edges makes those
    /// of them whose end points the graph has the edges of the graph, in
    /// their order and with their records, and changes neither nodes nor
    /// parents.
    pub proof fn lemma_copy_edges(self, source: Self, labels: Seq<E>, j: int)
        requires
            source.inv(),
            forall|x: Seq<char>| #[trigger] self.nodes.contains(x) ==> source.nodes.contains(x),
            self.edges.len() == 0,
            self.directed == source.directed,
            self.multigraph == source.multigraph,
            self.compound == source.compound,
            labels.len() == source.edges.len(),
            0 <= j <= source.edges.len(),
        ensures
            ({
                let r = self.copy_edges(source, source.edges.take(j), labels.take(j));
                &&& r.nodes == self.nodes
                &&& r.edges == keep(source.edges.take(j), source.between(self.nodes))
                &&& r.directed == source.directed
                &&& r.multigraph == source.multigraph
                &&& r.compound == source.compound
                &&& forall|k: Seq<char>| #[trigger]
                    r.edges.contains(k) ==> r.edge[k].rec == source.edge[k].rec
                &&& forall|x: Seq<char>| #[trigger] r.parent_of(x) == self.parent_of(x)
            }),
        decreases j,
    {
        let keys = source.edges.take(j);
        let ok = source.between(self.nodes);
        let r = self.copy_edges(source, keys, labels.take(j));
        if j == 0 {
            assert(self.edges =~= keep(source.edges.take(0), ok));
        } else {
            assert(keys.drop_last() =~= source.edges.take(j - 1));
            assert(labels.take(j).drop_last() =~= labels.take(j - 1));
            let prev = self.copy_edges(source, source.edges.take(j - 1), labels.take(j - 1));
            self.lemma_copy_edges(source, labels, j - 1);
            let k = keys.last();
            assert(k == source.edges[j - 1]);
            assert(source.edges.contains(k));
            assert(source.edge_ok(k));
            let rec = source.edge[k].rec;
            lemma_record_canonical(source.directed, rec.v, rec.w, rec.name);
            if prev.has_node(rec.v) && prev.has_node(rec.w) {
                assert(ok(k));
                assert(!prev.edges.contains(k)) by {
                    if prev.edges.contains(k) {
                        lemma_keep_subset(source.edges.take(j - 1), ok, k);
                        let i = source.edges.take(j - 1).index_of(k);
                        assert(source.edges[i] == k);
                    }
                }
                let label = labels.take(j).last();
                assert(r == prev.link(k, rec, label));
                lemma_push_contains(prev.edges, k);
                assert forall|e: Seq<char>| #[trigger] r.edges.contains(e) implies r.edge[e].rec
                    == source.edge[e].rec by {
                    if e != k {
                        assert(prev.edges.contains(e));
                    }
                }
            } else {
                assert(!ok(k));
                assert(r == prev);
            }
            assert forall|x: Seq<char>| #[trigger] r.parent_of(x) == self.parent_of(x) by {
                assert(prev.parent_of(x) == self.parent_of(x));
            }
        }
    }

    /// The test for an edge of this graph: whether both its end points are
    /// among `nodes`.
    pub open spec fn between(self, nodes: Seq<Seq<char>>) -> spec_fn(Seq<char>) -> bool {
        |k: Seq<char>| nodes.contains(self.edge[k].rec.v) && nodes.contains(self.edge[k].rec.w)
    }

    /// Copying parents changes neither nodes nor edges.
    pub proof fn lemma_copy_parents_keep(self, source: Self, i: int)
        requires
            0 <= i <= self.nodes.len(),
        ensures
            ({
                let r = self.copy_parents(source, self.nodes.take(i));
                &&& r.nodes == self.nodes
                &&& r.edges == self.edges
                &&& r.edge == self.edge
                &&& r.directed == self.directed
                &&& r.multigraph == self.multigraph
                &&& r.compound == self.compound
            }),
        decreases i,
    {
        if i > 0 {
            assert(self.nodes.take(i).drop_last() =~= self.nodes.take(i - 1));
            self.lemma_copy_parents_keep(source, i - 1);
        }
    }

    /// Going up from a node one comes to the top level or to nodes of
    /// lower rank, never back.
    pub proof fn lemma_rank_falls(self, x: Seq<char>, k: nat)
        requires
            self.inv(),
            self.has_node(x),
            k >= 1,
        ensures
            self.ancestor(x, k) == sentinel() || (self.has_node(self.ancestor(x, k))
                && self.rank_of(self.ancestor(x, k)) < self.rank_of(x)),
            self.ancestor(x, k) != x,
        decreases k,
    {
        let rank = choose|rank: Map<Seq<char>, nat>| self.ranked(rank);
        let p = self.parent_of(x);
        assert(self.place_ok(x));
        lemma_legal_not_sentinel(x);
        assert(self.ancestor(x, k) == self.ancestor(p, (k - 1) as nat));
        if p == sentinel() {
            self.lemma_ancestor_top((k - 1) as nat);
        } else if k == 1 {
            assert(self.ancestor(p, 0) == p);
        } else {
            self.lemma_rank_falls(p, (k - 1) as nat);
        }
    }

    /// Above the top level there is only the top level.
    pub proof fn lemma_top_stays(self, n: nat)
        requires
            self.parent_of(sentinel()) == sentinel(),
        ensures
            self.ancestor(sentinel(), n) == sentinel(),
        decreases n,
    {
        if n > 0 {
            self.lemma_top_stays((n - 1) as nat);
        }
    }

    /// Whether `q` stands above `y`, at `k` steps or more.
    pub open spec fn above(self, q: Seq<char>, y: Seq<char>, k: nat) -> bool {
        exists|n: nat| n >= k && self.ancestor(y, n) == q
    }

    /// Going up `a` steps and then `b` steps is going up `a + b` steps.
    pub proof fn lemma_ancestor_sum(self, x: Seq<char>, a: nat, b: nat)
        ensures
            self.ancestor(x, a + b) == self.ancestor(self.ancestor(x, a), b),
        decreases a,
    {
        if a > 0 {
            self.lemma_ancestor_sum(self.parent_of(x), (a - 1) as nat, b);
            assert(self.ancestor(x, a + b) == self.ancestor(self.parent_of(x), (a + b - 1) as nat));
        } else {
            assert(self.ancestor(x, 0) == x);
        }
    }

    /// The nearest kept node at or above `y` is kept, is a node, and
    /// stands at or above `y`.
    pub proof fn lemma_nearest(self, kept: Seq<Seq<char>>, y: Seq<char>)
        requires
            self.inv(),
        ensures
            self.nearest(kept, y) == sentinel() || (kept.contains(self.nearest(kept, y))
                && self.has_node(self.nearest(kept, y)) && self.above(
                self.nearest(kept, y),
                y,
                0,
            )),
        decreases self.rank_of(y),
    {
        if y != sentinel() && self.nodes.contains(y) {
            if kept.contains(y) {
                assert(self.ancestor(y, 0) == y);
            } else if self.node[y].parent != sentinel() {
                let p = self.node[y].parent;
                let rank = choose|rank: Map<Seq<char>, nat>| self.ranked(rank);
                assert(rank[p] < rank[y]);
                self.lemma_nearest(kept, p);
                let q = self.nearest(kept, p);
                if q != sentinel() {
                    let n = choose|n: nat| n >= 0 && self.ancestor(p, n) == q;
                    assert(self.ancestor(y, n + 1) == self.ancestor(self.parent_of(y), n));
                }
            }
        }
    }

    /// Where the parent of each node of `self` stands above the node in
    /// `source`, what stands `n` steps up in `self` stands as many steps
    /// up or more in `source`, unless `self` has come to the top level.
    pub proof fn lemma_chain_above(self, source: Self, x: Seq<char>, n: nat)
        requires
            forall|y: Seq<char>|
                #![trigger self.parent_of(y)]
                self.parent_of(y) == sentinel() || source.above(self.parent_of(y), y, 1),
            self.parent_of(sentinel()) == sentinel(),
        ensures
            self.ancestor(x, n) == sentinel() || source.above(self.ancestor(x, n), x, n),
        decreases n,
    {
        if n == 0 {
            assert(source.ancestor(x, 0) == x);
            assert(self.ancestor(x, 0) == x);
        } else {
            let q = self.parent_of(x);
            if q == sentinel() {
                self.lemma_top_stays((n - 1) as nat);
            } else {
                let a = choose|a: nat| a >= 1 && source.ancestor(x, a) == q;
                self.lemma_chain_above(source, q, (n - 1) as nat);
                let top = self.ancestor(q, (n - 1) as nat);
                if top != sentinel() {
                    let b = choose|b: nat| b >= n - 1 && source.ancestor(q, b) == top;
                    source.lemma_ancestor_sum(x, a, b);
                    assert(source.ancestor(x, a + b) == top);
                }
            }
        }
    }

    /// Copying the hierarchy of `source` for the first `i` nodes of a
    /// graph whose nodes are nodes of `source` and all at the top level
    /// puts each of them under the nearest node above it in `source` that
    /// the graph has, and leaves the others at the top level.
    pub proof fn lemma_copy_parents(self, source: Self, i: int)
        requires
            source.inv(),
            self.nodes.no_duplicates(),
            forall|x: Seq<char>| #[trigger] self.nodes.contains(x) ==> source.nodes.contains(x),
            forall|x: Seq<char>| #[trigger] self.parent_of(x) == sentinel(),
            0 <= i <= self.nodes.len(),
        ensures
            ({
                let r = self.copy_parents(source, self.nodes.take(i));
                &&& r.nodes == self.nodes
                &&& r.edges == self.edges
                &&& r.edge == self.edge
                &&& forall|x: Seq<char>| #[trigger]
                    r.parent_of(x) == if self.nodes.take(i).contains(x) {
                        source.nearest(self.nodes, source.parent_of(x))
                    } else {
                        sentinel()
                    }
            }),
        decreases i,
    {
        let ids = self.nodes.take(i);
        let r = self.copy_parents(source, ids);
        self.lemma_copy_parents_keep(source, i);
        if i > 0 {
            assert(ids.drop_last() =~= self.nodes.take(i - 1));
            let front = self.nodes.take(i - 1);
            let prev = self.copy_parents(source, front);
            self.lemma_copy_parents(source, i - 1);
            self.lemma_copy_parents_keep(source, i - 1);
            let v = ids.last();
            assert(v == self.nodes[i - 1]);
            assert(self.nodes.contains(v));
            assert(source.nodes.contains(v));
            lemma_legal_not_sentinel(v);
            let p = source.nearest(prev.nodes, source.parent_of(v));
            source.lemma_nearest(self.nodes, source.parent_of(v));
            if source.nodes.contains(sentinel()) {
                lemma_legal_not_sentinel(sentinel());
            }
            assert(!front.contains(v)) by {
                if front.contains(v) {
                    let a = front.index_of(v);
                    assert(self.nodes[a] == v);
                }
            }
            if p != sentinel() {
                let up = choose|n: nat| n >= 0 && source.ancestor(source.parent_of(v), n) == p;
                assert(source.ancestor(v, up + 1) == source.ancestor(source.parent_of(v), up));
                source.lemma_rank_falls(v, up + 1);
                assert(p != v);
                if prev.on_chain(p, v) {
                    let n = choose|n: nat| prev.ancestor(p, n) == v;
                    assert forall|y: Seq<char>|
                        #![trigger prev.parent_of(y)]
                        prev.parent_of(y) == sentinel() || source.above(
                            prev.parent_of(y),
                            y,
                            1,
                        ) by {
                        if prev.parent_of(y) != sentinel() {
                            assert(front.contains(y));
                            source.lemma_nearest(self.nodes, source.parent_of(y));
                            let q = prev.parent_of(y);
                            let b = choose|b: nat| b >= 0 && source.ancestor(source.parent_of(y), b) == q;
                            assert(source.ancestor(y, b + 1) == source.ancestor(
                                source.parent_of(y),
                                b,
                            ));
                        }
                    }
                    prev.lemma_chain_above(source, p, n);
                    let k = choose|k: nat| k >= n && source.ancestor(p, k) == v;
                    source.lemma_ancestor_sum(v, up + 1, k);
                    source.lemma_rank_falls(v, up + 1 + k);
                }
            }
            assert(r == prev.reparent(v, p));
            assert forall|x: Seq<char>| #[trigger]
                r.parent_of(x) == if ids.contains(x) {
                    source.nearest(self.nodes, source.parent_of(x))
                } else {
                    sentinel()
                } by {
                assert(prev.parent_of(x) == if front.contains(x) {
                    source.nearest(self.nodes, source.parent_of(x))
                } else {
                    sentinel()
                });
                assert(ids[i - 1] == v);
                if front.contains(x) {
                    let a = front.index_of(x);
                    assert(ids[a] == x);
                }
                if ids.contains(x) && x != v {
                    let a = ids.index_of(x);
                    assert(front[a] == x);
                }
            }
        }
    }
}

/// The elements of `ids` that are marked in `keep`, in their order.
pub open spec fn picked(ids: Seq<Seq<char>>, keep: Seq<bool>) -> Seq<Seq<char>>
    decreases ids.len(),
{
    if ids.len() == 0 {
        Seq::empty()
    } else if keep.last() {
        picked(ids.drop_last(), keep.drop_last()).push(ids.last())
    } else {
        picked(ids.drop_last(), keep.drop_last())
    }
}

/// What was picked stands in the list.
pub proof fn lemma_picked_within(ids: Seq<Seq<char>>, keep: Seq<bool>, x: Seq<char>)
    requires
        keep.len() == ids.len(),
        picked(ids, keep).contains(x),
    ensures
        ids.contains(x),
    decreases ids.len(),
{
    if ids.len() > 0 {
        let front = ids.drop_last();
        assert(ids[ids.len() - 1] == ids.last());
        lemma_push_contains(picked(front, keep.drop_last()), ids.last());
        if x != ids.last() || !keep.last() {
            lemma_picked_within(front, keep.drop_last(), x);
            let i = front.index_of(x);
            assert(ids[i] == x);
        }
    }
}

/// What is picked from a list without duplicates has none.
pub proof fn lemma_picked_distinct(ids: Seq<Seq<char>>, keep: Seq<bool>)
    requires
        keep.len() == ids.len(),
        ids.no_duplicates(),
    ensures
        picked(ids, keep).no_duplicates(),
    decreases ids.len(),
{
    if ids.len() > 0 {
        let front = ids.drop_last();
        lemma_picked_distinct(front, keep.drop_last());
        if keep.last() {
            let rest = picked(front, keep.drop_last());
            if rest.contains(ids.last()) {
                lemma_picked_within(front, keep.drop_last(), ids.last());
                let i = front.index_of(ids.last());
                assert(ids[i] == ids[ids.len() - 1]);
            }
            lemma_push_contains(rest, ids.last());
        }
    }
}

/// Where every element is marked, all are picked.
pub proof fn lemma_picked_all(ids: Seq<Seq<char>>, keep: Seq<bool>)
    requires
        keep.len() == ids.len(),
        forall|i: int| 0 <= i < keep.len() ==> #[trigger] keep[i],
    ensures
        picked(ids, keep) == ids,
    decreases ids.len(),
{
    if ids.len() > 0 {
        lemma_picked_all(ids.drop_last(), keep.drop_last());
        assert(keep.last() == keep[keep.len() - 1]);
        assert(ids.drop_last().push(ids.last()) =~= ids);
    } else {
        assert(picked(ids, keep) =~= ids);
    }
}

/// Where every element passes, `keep` keeps all.
pub proof fn lemma_keep_all(s: Seq<Seq<char>>, ok: spec_fn(Seq<char>) -> bool)
    requires
        forall|i: int| 0 <= i < s.len() ==> ok(#[trigger] s[i]),
    ensures
        keep(s, ok) == s,
    decreases s.len(),
{
    if s.len() > 0 {
        lemma_keep_all(s.drop_last(), ok);
        assert(s.last() == s[s.len() - 1]);
        assert(s.drop_last().push(s.last()) =~= s);
    } else {
        assert(keep(s, ok) =~= s);
    }
}

impl<N, E> GraphModel<N, E> {
    /// The nodes and the edges of a filtered graph before the hierarchy is
    /// copied: the nodes are the nodes that were kept, in their order; the
    /// edges are the edges between them, in their order and with their
    /// records.
    pub proof fn lemma_filter_parts(self, keep: Seq<bool>, node_labels: Seq<N>, edge_labels: Seq<E>)
        requires
            self.inv(),
            keep.len() == self.nodes.len(),
            node_labels.len() == self.nodes.len(),
            edge_labels.len() == self.edges.len(),
        ensures
            ({
                let start = Self::empty(self.directed, self.multigraph, self.compound);
                let nodes = start.copy_nodes(self.nodes, keep, node_labels);
                let edges = nodes.copy_edges(self, self.edges, edge_labels);
                &&& nodes.nodes == picked(self.nodes, keep)
                &&& edges.nodes == nodes.nodes
                &&& edges.edges == crate::model::keep(self.edges, self.between(nodes.nodes))
                &&& edges.directed == self.directed
                &&& edges.multigraph == self.multigraph
                &&& edges.compound == self.compound
                &&& forall|k: Seq<char>| #[trigger]
                    edges.edges.contains(k) ==> edges.edge[k].rec == self.edge[k].rec
                &&& forall|x: Seq<char>| #[trigger] edges.parent_of(x) == sentinel()
            }),
    {
        let start = Self::empty(self.directed, self.multigraph, self.compound);
        start.lemma_copy_nodes(self.nodes, keep, node_labels);
        let nodes = start.copy_nodes(self.nodes, keep, node_labels);
        assert(nodes.nodes =~= picked(self.nodes, keep));
        assert(nodes.edges =~= Seq::<Seq<char>>::empty());
        assert forall|x: Seq<char>| #[trigger] nodes.nodes.contains(x) implies self.nodes.contains(
            x,
        ) by {
            lemma_picked_within(self.nodes, keep, x);
        }
        nodes.lemma_copy_edges(self, edge_labels, self.edges.len() as int);
        assert(self.edges.take(self.edges.len() as int) =~= self.edges);
        assert(edge_labels.take(self.edges.len() as int) =~= edge_labels);
        let edges = nodes.copy_edges(self, self.edges, edge_labels);
        assert forall|x: Seq<char>| #[trigger] edges.parent_of(x) == sentinel() by {
            assert(nodes.parent_of(x) == sentinel());
        }
    }
}

/// Filtering gives a graph of the same kind whose nodes are the nodes that
/// were kept, in their order, and whose edges are the edges between them,
/// in their order and with their records.
pub proof fn law_filter_keeps_the_rest<N, E>(
    m: GraphModel<N, E>,
    keep: Seq<bool>,
    node_labels: Seq<N>,
    edge_labels: Seq<E>,
)
    requires
        m.inv(),
        keep.len() == m.nodes.len(),
        node_labels.len() == m.nodes.len(),
        edge_labels.len() == m.edges.len(),
    ensures
        ({
            let r = m.filtered(keep, node_labels, edge_labels);
            &&& r.directed == m.directed
            &&& r.multigraph == m.multigraph
            &&& r.compound == m.compound
            &&& r.nodes == picked(m.nodes, keep)
            &&& r.edges == crate::model::keep(m.edges, m.between(r.nodes))
            &&& forall|k: Seq<char>| #[trigger] r.edges.contains(k) ==> r.edge[k].rec == m.edge[k].rec
            &&& m.compound ==> forall|x: Seq<char>| #[trigger]
                r.has_node(x) ==> r.parent_of(x) == m.nearest(r.nodes, m.parent_of(x))
        }),
{
    m.lemma_filter_parts(keep, node_labels, edge_labels);
    let start = GraphModel::<N, E>::empty(m.directed, m.multigraph, m.compound);
    let nodes = start.copy_nodes(m.nodes, keep, node_labels);
    let edges = nodes.copy_edges(m, m.edges, edge_labels);
    if m.compound {
        lemma_picked_distinct(m.nodes, keep);
        assert forall|x: Seq<char>| #[trigger] edges.nodes.contains(x) implies m.nodes.contains(
            x,
        ) by {
            lemma_picked_within(m.nodes, keep, x);
        }
        edges.lemma_copy_parents(m, edges.nodes.len() as int);
        edges.lemma_copy_parents_keep(m, edges.nodes.len() as int);
        assert(edges.nodes.take(edges.nodes.len() as int) =~= edges.nodes);
    }
}

/// Filtering with a filter that keeps every node gives a graph of the same
/// kind with the same nodes in the same order, the same edges in the same
/// order with the same records, and, where the graph is compound, the same
/// parent for every node and so the same children for every parent.
pub proof fn law_filter_keeping_all<N, E>(
    m: GraphModel<N, E>,
    keep: Seq<bool>,
    node_labels: Seq<N>,
    edge_labels: Seq<E>,
)
    requires
        m.inv(),
        m.filtered(keep, node_labels, edge_labels).inv(),
        keep.len() == m.nodes.len(),
        node_labels.len() == m.nodes.len(),
        edge_labels.len() == m.edges.len(),
        forall|i: int| 0 <= i < keep.len() ==> #[trigger] keep[i],
    ensures
        ({
            let r = m.filtered(keep, node_labels, edge_labels);
            &&& r.directed == m.directed
            &&& r.multigraph == m.multigraph
            &&& r.compound == m.compound
            &&& r.nodes == m.nodes
            &&& r.edges == m.edges
            &&& r.edge_records() == m.edge_records()
            &&& m.compound ==> forall|x: Seq<char>| #[trigger] r.parent_of(x) == m.parent_of(x)
            &&& m.compound ==> forall|x: Seq<char>, c: Seq<char>|
                m.has_node(x) || x == sentinel() ==> (#[trigger] r.children_of(x).contains(c)
                    <==> m.children_of(x).contains(c))
        }),
{
    let start = GraphModel::<N, E>::empty(m.directed, m.multigraph, m.compound);
    let r = m.filtered(keep, node_labels, edge_labels);
    m.lemma_filter_parts(keep, node_labels, edge_labels);
    let nodes = start.copy_nodes(m.nodes, keep, node_labels);
    lemma_picked_all(m.nodes, keep);
    assert(nodes.nodes == m.nodes);
    let edges = nodes.copy_edges(m, m.edges, edge_labels);
    assert forall|i: int| 0 <= i < m.edges.len() implies (m.between(m.nodes))(
        #[trigger] m.edges[i],
    ) by {
        assert(m.edges.contains(m.edges[i]));
        assert(m.edge_ok(m.edges[i]));
    }
    lemma_keep_all(m.edges, m.between(m.nodes));
    assert(edges.edges == m.edges);
    assert(edges.edge_records() =~= m.edge_records()) by {
        assert forall|i: int| 0 <= i < m.edges.len() implies (#[trigger] edges.edge[m.edges[i]]).rec
            == m.edge[m.edges[i]].rec by {
            assert(edges.edges.contains(m.edges[i]));
        }
    }
    if m.compound {
        edges.lemma_copy_parents(m, m.nodes.len() as int);
        edges.lemma_copy_parents_keep(m, m.nodes.len() as int);
        assert(m.nodes.take(m.nodes.len() as int) =~= m.nodes);
        assert(r.edge_records() =~= m.edge_records());
        assert forall|x: Seq<char>| #[trigger] r.parent_of(x) == m.parent_of(x) by {
            if m.nodes.contains(x) {
                assert(m.place_ok(x));
                let p = m.parent_of(x);
                if p != sentinel() {
                    lemma_legal_not_sentinel(p);
                }
                assert(m.nearest(m.nodes, p) == p);
            }
        }
        assert forall|x: Seq<char>, c: Seq<char>|
            m.has_node(x) || x == sentinel() implies (#[trigger] r.children_of(x).contains(c)
            <==> m.children_of(x).contains(c)) by {
            if m.has_node(c) {
                m.lemma_listed_once(x, c);
                r.lemma_listed_once(x, c);
                assert(r.parent_of(c) == m.parent_of(c));
            } else {
                if x != sentinel() {
                    assert(m.place_ok(x));
                    assert(r.place_ok(x));
                }
            }
        }
    }
}

} // verus!
