//! The mathematical model of a graph: what a graph is, apart from how it is
//! stored, and how each operation changes it.

use crate::edge::{
    edge_key, edge_record, is_canonical, legal_id, lemma_key_parts, lemma_legal_not_sentinel,
    sentinel, EdgeView,
};
use vstd::prelude::*;

verus! {

/// `s` without `k`; the elements behind it move up.
pub open spec fn seq_without(s: Seq<Seq<char>>, k: Seq<char>) -> Seq<Seq<char>> {
    if s.contains(k) {
        s.remove(s.index_of(k))
    } else {
        s
    }
}

/// The end of an edge that lies away from the node which lists it: the
/// source of an incoming edge, the target of an outgoing one.
pub open spec fn far_end(rec: EdgeView, incoming: bool) -> Seq<char> {
    if incoming {
        rec.v
    } else {
        rec.w
    }
}

/// How many of the listed edges have `u` at their far end.
pub open spec fn tally(
    keys: Seq<Seq<char>>,
    recs: Map<Seq<char>, EdgeView>,
    incoming: bool,
    u: Seq<char>,
) -> nat
    decreases keys.len(),
{
    if keys.len() == 0 {
        0
    } else {
        tally(keys.drop_last(), recs, incoming, u) + if far_end(recs[keys.last()], incoming) == u {
            1nat
        } else {
            0nat
        }
    }
}

/// The elements of `s` that pass `ok`, in their order.
pub open spec fn keep(s: Seq<Seq<char>>, ok: spec_fn(Seq<char>) -> bool) -> Seq<Seq<char>>
    decreases s.len(),
{
    if s.len() == 0 {
        Seq::empty()
    } else if ok(s.last()) {
        keep(s.drop_last(), ok).push(s.last())
    } else {
        keep(s.drop_last(), ok)
    }
}

/// The records of the listed edges, in their order; with a `peer`, only of
/// those that have it at their far end.
pub open spec fn select(
    keys: Seq<Seq<char>>,
    recs: Map<Seq<char>, EdgeView>,
    incoming: bool,
    peer: Option<Seq<char>>,
) -> Seq<EdgeView>
    decreases keys.len(),
{
    if keys.len() == 0 {
        Seq::empty()
    } else if peer.is_none() || peer == Some(far_end(recs[keys.last()], incoming)) {
        select(keys.drop_last(), recs, incoming, peer).push(recs[keys.last()])
    } else {
        select(keys.drop_last(), recs, incoming, peer)
    }
}

/// `keep` over one element more.
pub proof fn lemma_keep_step(s: Seq<Seq<char>>, ok: spec_fn(Seq<char>) -> bool, i: int)
    requires
        0 <= i < s.len(),
    ensures
        keep(s.take(i + 1), ok) == if ok(s[i]) {
            keep(s.take(i), ok).push(s[i])
        } else {
            keep(s.take(i), ok)
        },
{
    assert(s.take(i + 1).drop_last() =~= s.take(i));
}

/// `keep` over nothing is empty, and a list taken whole is the list.
pub proof fn lemma_keep_ends(s: Seq<Seq<char>>, ok: spec_fn(Seq<char>) -> bool)
    ensures
        keep(s.take(0), ok) == Seq::<Seq<char>>::empty(),
        s.take(s.len() as int) == s,
{
    assert(s.take(s.len() as int) =~= s);
}

/// `keep` keeps exactly the elements that pass.
pub proof fn lemma_keep_subset(s: Seq<Seq<char>>, ok: spec_fn(Seq<char>) -> bool, u: Seq<char>)
    ensures
        keep(s, ok).contains(u) <==> s.contains(u) && ok(u),
    decreases s.len(),
{
    if s.len() > 0 {
        let front = s.drop_last();
        lemma_keep_subset(front, ok, u);
        lemma_push_contains(keep(front, ok), s.last());
        if s.contains(u) {
            let i = s.index_of(u);
            if i < front.len() {
                assert(front[i] == u);
            }
        }
        if front.contains(u) {
            let i = front.index_of(u);
            assert(s[i] == u);
        }
        assert(s[s.len() - 1] == s.last());
    }
}

/// `select` over one edge more.
pub proof fn lemma_select_step(
    keys: Seq<Seq<char>>,
    recs: Map<Seq<char>, EdgeView>,
    incoming: bool,
    peer: Option<Seq<char>>,
    i: int,
)
    requires
        0 <= i < keys.len(),
    ensures
        select(keys.take(i + 1), recs, incoming, peer) == if peer.is_none() || peer == Some(
            far_end(recs[keys[i]], incoming),
        ) {
            select(keys.take(i), recs, incoming, peer).push(recs[keys[i]])
        } else {
            select(keys.take(i), recs, incoming, peer)
        },
{
    assert(keys.take(i + 1).drop_last() =~= keys.take(i));
}

/// `select` over nothing is empty.
pub proof fn lemma_select_ends(
    keys: Seq<Seq<char>>,
    recs: Map<Seq<char>, EdgeView>,
    incoming: bool,
    peer: Option<Seq<char>>,
)
    ensures
        select(keys.take(0), recs, incoming, peer) == Seq::<EdgeView>::empty(),
        keys.take(keys.len() as int) == keys,
{
    assert(keys.take(keys.len() as int) =~= keys);
}

/// Membership after a push: the old elements and the new one.
pub proof fn lemma_push_contains(s: Seq<Seq<char>>, k: Seq<char>)
    ensures
        forall|u: Seq<char>| #[trigger] s.push(k).contains(u) <==> s.contains(u) || u == k,
        s.no_duplicates() && !s.contains(k) ==> s.push(k).no_duplicates(),
{
    let t = s.push(k);
    assert forall|u: Seq<char>| #[trigger] t.contains(u) <==> s.contains(u) || u == k by {
        if s.contains(u) {
            let i = s.index_of(u);
            assert(t[i] == u);
        }
        if u == k {
            assert(t[s.len() as int] == k);
        }
        if t.contains(u) {
            let i = t.index_of(u);
            if i < s.len() {
                assert(s[i] == u);
            }
        }
    }
    if s.no_duplicates() && !s.contains(k) {
        assert forall|i: int, j: int| 0 <= i < t.len() && 0 <= j < t.len() && i != j implies t[i]
            != t[j] by {
            if i < s.len() {
                assert(s.contains(s[i]));
            }
            if j < s.len() {
                assert(s.contains(s[j]));
            }
        }
    }
}

/// Taking an element out of a list without duplicates: the others stay,
/// in their order, and the list stays without duplicates.
pub proof fn lemma_without(s: Seq<Seq<char>>, k: Seq<char>)
    requires
        s.no_duplicates(),
    ensures
        seq_without(s, k).no_duplicates(),
        forall|u: Seq<char>| #[trigger] seq_without(s, k).contains(u) <==> s.contains(u) && u != k,
        s.contains(k) ==> seq_without(s, k).len() + 1 == s.len(),
{
    let t = seq_without(s, k);
    if s.contains(k) {
        let p = s.index_of(k);
        assert forall|i: int, j: int| 0 <= i < t.len() && 0 <= j < t.len() && i != j implies t[i]
            != t[j] by {
            let a = if i < p { i } else { i + 1 };
            let b = if j < p { j } else { j + 1 };
            assert(t[i] == s[a] && t[j] == s[b]);
        }
        assert forall|u: Seq<char>| #[trigger] t.contains(u) <==> s.contains(u) && u != k by {
            if t.contains(u) {
                let i = t.index_of(u);
                let a = if i < p { i } else { i + 1 };
                assert(s[a] == u);
            }
            if s.contains(u) && u != k {
                let a = s.index_of(u);
                let i = if a < p { a } else { a - 1 };
                assert(t[i] == u);
            }
        }
    }
}

/// In a list without duplicates, taking out the first of the elements from
/// `j` on leaves the elements from `j + 1` on.
pub proof fn lemma_without_first(s: Seq<Seq<char>>, j: int)
    requires
        s.no_duplicates(),
        0 <= j < s.len(),
    ensures
        seq_without(s.skip(j), s[j]) == s.skip(j + 1),
        s.skip(j).no_duplicates(),
        s.skip(0) == s,
{
    let t = s.skip(j);
    assert(t[0] == s[j]);
    assert(t.contains(s[j]));
    let i = t.index_of(s[j]);
    assert(t[i] == s[i + j]);
    assert(i == 0);
    assert(t.remove(0) =~= s.skip(j + 1));
    assert(s.skip(0) =~= s);
}

/// The tally looks only at the records of the listed keys.
pub proof fn lemma_tally_local(
    keys: Seq<Seq<char>>,
    recs: Map<Seq<char>, EdgeView>,
    other: Map<Seq<char>, EdgeView>,
    incoming: bool,
    u: Seq<char>,
)
    requires
        forall|k: Seq<char>| keys.contains(k) ==> #[trigger] recs[k] == other[k],
    ensures
        tally(keys, recs, incoming, u) == tally(keys, other, incoming, u),
    decreases keys.len(),
{
    if keys.len() > 0 {
        let front = keys.drop_last();
        assert forall|k: Seq<char>| front.contains(k) implies #[trigger] recs[k] == other[k] by {
            let i = front.index_of(k);
            assert(keys[i] == k);
        }
        lemma_tally_local(front, recs, other, incoming, u);
        assert(keys.contains(keys.last()));
    }
}

/// The tally is at most the number of keys, and positive exactly when some
/// listed edge has `u` at its far end.
pub proof fn lemma_tally_bounds(
    keys: Seq<Seq<char>>,
    recs: Map<Seq<char>, EdgeView>,
    incoming: bool,
    u: Seq<char>,
)
    ensures
        tally(keys, recs, incoming, u) <= keys.len(),
        tally(keys, recs, incoming, u) > 0 <==> exists|k: Seq<char>|
            keys.contains(k) && far_end(#[trigger] recs[k], incoming) == u,
    decreases keys.len(),
{
    if keys.len() > 0 {
        let front = keys.drop_last();
        lemma_tally_bounds(front, recs, incoming, u);
        assert(keys.contains(keys.last()));
        if tally(keys, recs, incoming, u) > 0 {
            if far_end(recs[keys.last()], incoming) != u {
                let k = choose|k: Seq<char>|
                    front.contains(k) && far_end(#[trigger] recs[k], incoming) == u;
                let i = front.index_of(k);
                assert(keys[i] == k);
            }
        }
        if exists|k: Seq<char>| keys.contains(k) && far_end(#[trigger] recs[k], incoming) == u {
            let k = choose|k: Seq<char>|
                keys.contains(k) && far_end(#[trigger] recs[k], incoming) == u;
            let i = keys.index_of(k);
            if i < front.len() {
                assert(front[i] == k);
            }
        }
    }
}

/// A new edge adds one to the tally of its far end and nothing to the others.
pub proof fn lemma_tally_push(
    keys: Seq<Seq<char>>,
    recs: Map<Seq<char>, EdgeView>,
    incoming: bool,
    u: Seq<char>,
    k: Seq<char>,
    rec: EdgeView,
)
    requires
        !keys.contains(k),
    ensures
        tally(keys.push(k), recs.insert(k, rec), incoming, u) == tally(keys, recs, incoming, u) + (
        if far_end(rec, incoming) == u {
            1nat
        } else {
            0nat
        }),
{
    assert(keys.push(k).drop_last() =~= keys);
    lemma_tally_local(keys, recs, recs.insert(k, rec), incoming, u);
}

/// An edge that leaves takes one from the tally of its far end and nothing
/// from the others.
pub proof fn lemma_tally_remove(
    keys: Seq<Seq<char>>,
    recs: Map<Seq<char>, EdgeView>,
    incoming: bool,
    u: Seq<char>,
    k: Seq<char>,
)
    requires
        keys.no_duplicates(),
        keys.contains(k),
    ensures
        tally(seq_without(keys, k), recs.remove(k), incoming, u) + (if far_end(recs[k], incoming)
            == u {
            1nat
        } else {
            0nat
        }) == tally(keys, recs, incoming, u),
    decreases keys.len(),
{
    let i = keys.index_of(k);
    let front = keys.drop_last();
    let rest = seq_without(keys, k);
    if i == keys.len() - 1 {
        assert(rest =~= front);
        assert forall|x: Seq<char>| front.contains(x) implies #[trigger] recs.remove(k)[x]
            == recs[x] by {
            let j = front.index_of(x);
            assert(keys[j] == x);
        }
        lemma_tally_local(front, recs.remove(k), recs, incoming, u);
    } else {
        assert(front[i] == k);
        assert(front.contains(k));
        assert(front.no_duplicates());
        let j = front.index_of(k);
        assert(keys[j] == k);
        assert(j == i);
        assert(rest.drop_last() =~= seq_without(front, k));
        assert(rest.last() == keys.last());
        lemma_tally_remove(front, recs, incoming, u, k);
    }
}

/// The neighbours on one side of a node, in the order in which they became
/// neighbours, each with the number of parallel edges that lead to it.
pub struct Neighbours {
    pub ids: Seq<Seq<char>>,
    pub count: Map<Seq<char>, usize>,
}

impl Neighbours {
    /// No neighbours.
    pub open spec fn empty() -> Self {
        Neighbours { ids: Seq::empty(), count: Map::empty() }
    }

    /// One more edge leads to `u`.
    pub open spec fn more(self, u: Seq<char>) -> Self {
        if self.ids.contains(u) {
            Neighbours { ids: self.ids, count: self.count.insert(u, (self.count[u] + 1) as usize) }
        } else {
            Neighbours { ids: self.ids.push(u), count: self.count.insert(u, 1) }
        }
    }

    /// One edge fewer leads to `u`; with the last one, `u` leaves the list.
    pub open spec fn fewer(self, u: Seq<char>) -> Self {
        if !self.ids.contains(u) {
            self
        } else if self.count[u] <= 1 {
            Neighbours { ids: seq_without(self.ids, u), count: self.count.remove(u) }
        } else {
            Neighbours { ids: self.ids, count: self.count.insert(u, (self.count[u] - 1) as usize) }
        }
    }

    /// The list and the counts say exactly what the listed edges say.
    pub open spec fn agrees(
        self,
        keys: Seq<Seq<char>>,
        recs: Map<Seq<char>, EdgeView>,
        incoming: bool,
    ) -> bool {
        &&& self.ids.no_duplicates()
        &&& forall|u: Seq<char>| #[trigger] self.count.dom().contains(u) <==> self.ids.contains(u)
        &&& forall|u: Seq<char>|
            #![trigger self.ids.contains(u)]
            #![trigger tally(keys, recs, incoming, u)]
            (self.ids.contains(u) <==> tally(keys, recs, incoming, u) > 0) && (self.ids.contains(u)
                ==> self.count[u] == tally(keys, recs, incoming, u))
    }
}

/// Counting one more edge keeps list and counts in step with the edges.
pub proof fn lemma_more_agrees(
    n: Neighbours,
    keys: Seq<Seq<char>>,
    recs: Map<Seq<char>, EdgeView>,
    incoming: bool,
    k: Seq<char>,
    rec: EdgeView,
)
    requires
        n.agrees(keys, recs, incoming),
        !keys.contains(k),
        keys.len() < usize::MAX,
    ensures
        n.more(far_end(rec, incoming)).agrees(keys.push(k), recs.insert(k, rec), incoming),
{
    let x = far_end(rec, incoming);
    let m = n.more(x);
    let keys2 = keys.push(k);
    let recs2 = recs.insert(k, rec);
    lemma_push_contains(n.ids, x);
    lemma_tally_bounds(keys, recs, incoming, x);
    assert forall|u: Seq<char>|
        #![trigger m.ids.contains(u)]
        #![trigger tally(keys2, recs2, incoming, u)]
        (m.ids.contains(u) <==> tally(keys2, recs2, incoming, u) > 0) && (m.ids.contains(u)
            ==> m.count[u] == tally(keys2, recs2, incoming, u)) by {
        lemma_tally_push(keys, recs, incoming, u, k, rec);
        assert(n.ids.contains(u) <==> tally(keys, recs, incoming, u) > 0);
    }
    assert forall|u: Seq<char>| #[trigger] m.count.dom().contains(u) <==> m.ids.contains(u) by {
        assert(n.count.dom().contains(u) <==> n.ids.contains(u));
    }
}

/// Counting one edge fewer keeps list and counts in step with the edges.
pub proof fn lemma_fewer_agrees(
    n: Neighbours,
    keys: Seq<Seq<char>>,
    recs: Map<Seq<char>, EdgeView>,
    incoming: bool,
    k: Seq<char>,
)
    requires
        n.agrees(keys, recs, incoming),
        keys.no_duplicates(),
        keys.contains(k),
    ensures
        n.fewer(far_end(recs[k], incoming)).agrees(seq_without(keys, k), recs.remove(k), incoming),
        n.ids.contains(far_end(recs[k], incoming)),
        n.count[far_end(recs[k], incoming)] >= 1,
{
    let x = far_end(recs[k], incoming);
    let m = n.fewer(x);
    let keys2 = seq_without(keys, k);
    let recs2 = recs.remove(k);
    lemma_tally_bounds(keys, recs, incoming, x);
    assert(tally(keys, recs, incoming, x) > 0);
    assert(n.ids.contains(x));
    lemma_without(n.ids, x);
    assert forall|u: Seq<char>|
        #![trigger m.ids.contains(u)]
        #![trigger tally(keys2, recs2, incoming, u)]
        (m.ids.contains(u) <==> tally(keys2, recs2, incoming, u) > 0) && (m.ids.contains(u)
            ==> m.count[u] == tally(keys2, recs2, incoming, u)) by {
        lemma_tally_remove(keys, recs, incoming, u, k);
        assert(n.ids.contains(u) <==> tally(keys, recs, incoming, u) > 0);
    }
    assert forall|u: Seq<char>| #[trigger] m.count.dom().contains(u) <==> m.ids.contains(u) by {
        assert(n.count.dom().contains(u) <==> n.ids.contains(u));
    }
}

/// What the graph knows of one node.
pub struct NodeModel<N> {
    pub label: N,
    /// Keys of the incoming edges, oldest first, and their records.
    pub ins: Seq<Seq<char>>,
    pub in_rec: Map<Seq<char>, EdgeView>,
    /// Keys of the outgoing edges, oldest first, and their records.
    pub outs: Seq<Seq<char>>,
    pub out_rec: Map<Seq<char>, EdgeView>,
    pub preds: Neighbours,
    pub sucs: Neighbours,
    /// The parent in a compound graph; the sentinel for a top-level node.
    pub parent: Seq<char>,
    /// The direct children, in the order in which they were attached.
    pub children: Seq<Seq<char>>,
}

impl<N> NodeModel<N> {
    /// A node without edges, at the top level.
    pub open spec fn fresh(label: N) -> Self {
        NodeModel {
            label,
            ins: Seq::empty(),
            in_rec: Map::empty(),
            outs: Seq::empty(),
            out_rec: Map::empty(),
            preds: Neighbours::empty(),
            sucs: Neighbours::empty(),
            parent: sentinel(),
            children: Seq::empty(),
        }
    }

    /// The node under another label.
    pub open spec fn with_label(self, label: N) -> Self {
        NodeModel { label, ..self }
    }

    /// The node with one more incoming edge.
    pub open spec fn with_in(self, k: Seq<char>, rec: EdgeView) -> Self {
        NodeModel {
            ins: self.ins.push(k),
            in_rec: self.in_rec.insert(k, rec),
            preds: self.preds.more(rec.v),
            ..self
        }
    }

    /// The node with one more outgoing edge.
    pub open spec fn with_out(self, k: Seq<char>, rec: EdgeView) -> Self {
        NodeModel {
            outs: self.outs.push(k),
            out_rec: self.out_rec.insert(k, rec),
            sucs: self.sucs.more(rec.w),
            ..self
        }
    }

    /// The node without the incoming edge `k`, whose record is `rec`.
    pub open spec fn without_in(self, k: Seq<char>, rec: EdgeView) -> Self {
        NodeModel {
            ins: seq_without(self.ins, k),
            in_rec: self.in_rec.remove(k),
            preds: self.preds.fewer(rec.v),
            ..self
        }
    }

    /// The node without the outgoing edge `k`, whose record is `rec`.
    pub open spec fn without_out(self, k: Seq<char>, rec: EdgeView) -> Self {
        NodeModel {
            outs: seq_without(self.outs, k),
            out_rec: self.out_rec.remove(k),
            sucs: self.sucs.fewer(rec.w),
            ..self
        }
    }

    /// The node's own lists are consistent with one another.
    pub open spec fn adjacency_ok(self) -> bool {
        &&& self.ins.no_duplicates()
        &&& self.outs.no_duplicates()
        &&& forall|k: Seq<char>| #[trigger] self.in_rec.dom().contains(k) <==> self.ins.contains(k)
        &&& forall|k: Seq<char>| #[trigger] self.out_rec.dom().contains(k) <==> self.outs.contains(k)
        &&& self.preds.agrees(self.ins, self.in_rec, true)
        &&& self.sucs.agrees(self.outs, self.out_rec, false)
    }
}

/// An edge with its label.
pub struct EdgeModel<E> {
    pub rec: EdgeView,
    pub label: E,
}

/// A graph: its kind, its nodes and edges in the order of their creation,
/// and for each node its adjacency and its place in the hierarchy.
pub struct GraphModel<N, E> {
    pub directed: bool,
    pub multigraph: bool,
    pub compound: bool,
    pub nodes: Seq<Seq<char>>,
    pub node: Map<Seq<char>, NodeModel<N>>,
    pub edges: Seq<Seq<char>>,
    pub edge: Map<Seq<char>, EdgeModel<E>>,
    /// The top-level nodes of a compound graph, in the order in which they
    /// came to the top level.
    pub root_children: Seq<Seq<char>>,
}

impl<N, E> GraphModel<N, E> {
    /// The graph of the given kind without nodes.
    pub open spec fn empty(directed: bool, multigraph: bool, compound: bool) -> Self {
        GraphModel {
            directed,
            multigraph,
            compound,
            nodes: Seq::empty(),
            node: Map::empty(),
            edges: Seq::empty(),
            edge: Map::empty(),
            root_children: Seq::empty(),
        }
    }

    /// Whether `v` is a node.
    pub open spec fn has_node(self, v: Seq<char>) -> bool {
        self.nodes.contains(v)
    }

    /// Whether an edge is filed under the key `k`.
    pub open spec fn has_edge(self, k: Seq<char>) -> bool {
        self.edges.contains(k)
    }

    /// The key of the edge between `v` and `w` in this graph.
    pub open spec fn key(self, v: Seq<char>, w: Seq<char>, name: Option<Seq<char>>) -> Seq<char> {
        edge_key(self.directed, v, w, name)
    }

    /// The graph with a new node `v`, which starts without edges and at the
    /// top level.
    pub open spec fn add_node(self, v: Seq<char>, label: N) -> Self {
        GraphModel {
            nodes: self.nodes.push(v),
            node: self.node.insert(v, NodeModel::fresh(label)),
            root_children: self.root_children.push(v),
            ..self
        }
    }

    /// The graph with another label on its node `v`.
    pub open spec fn relabel_node(self, v: Seq<char>, label: N) -> Self {
        GraphModel { node: self.node.insert(v, self.node[v].with_label(label)), ..self }
    }

    /// The graph in which `v` is a node: unchanged where it already is one,
    /// else with `v` added under the given label.
    pub open spec fn ensure_node(self, v: Seq<char>, label: N) -> Self {
        if self.has_node(v) {
            self
        } else {
            self.add_node(v, label)
        }
    }

    /// Setting a node: a present node takes the label if one is given, an
    /// absent node is created with the given label or else the fallback.
    pub open spec fn set_node(self, v: Seq<char>, label: Option<N>, fallback: N) -> Self {
        if self.has_node(v) {
            match label {
                Some(l) => self.relabel_node(v, l),
                None => self,
            }
        } else {
            match label {
                Some(l) => self.add_node(v, l),
                None => self.add_node(v, fallback),
            }
        }
    }

    /// The graph with the new edge `k` between two of its nodes.
    pub open spec fn link(self, k: Seq<char>, rec: EdgeView, label: E) -> Self {
        let target = self.node.insert(rec.w, self.node[rec.w].with_in(k, rec));
        GraphModel {
            edges: self.edges.push(k),
            edge: self.edge.insert(k, EdgeModel { rec, label }),
            node: target.insert(rec.v, target[rec.v].with_out(k, rec)),
            ..self
        }
    }

    /// The graph with another label on its edge `k`.
    pub open spec fn relabel_edge(self, k: Seq<char>, label: E) -> Self {
        GraphModel { edge: self.edge.insert(k, EdgeModel { rec: self.edge[k].rec, label }), ..self }
    }

    /// The graph without the edge `k`, which it has.
    pub open spec fn unlink(self, k: Seq<char>) -> Self {
        let rec = self.edge[k].rec;
        let target = self.node.insert(rec.w, self.node[rec.w].without_in(k, rec));
        GraphModel {
            edges: seq_without(self.edges, k),
            edge: self.edge.remove(k),
            node: target.insert(rec.v, target[rec.v].without_out(k, rec)),
            ..self
        }
    }

    /// Removing an edge by key: nothing happens where there is no such edge.
    pub open spec fn remove_edge(self, k: Seq<char>) -> Self {
        if self.has_edge(k) {
            self.unlink(k)
        } else {
            self
        }
    }

    /// Removing the listed edges one after the other.
    pub open spec fn remove_edges(self, keys: Seq<Seq<char>>) -> Self
        decreases keys.len(),
    {
        if keys.len() == 0 {
            self
        } else {
            self.remove_edges(keys.drop_last()).remove_edge(keys.last())
        }
    }

    /// Whether setting the edge between `v` and `w` under this name is
    /// refused: a new edge with a name in a graph that is no multigraph.
    pub open spec fn refuses_edge(self, v: Seq<char>, w: Seq<char>, name: Option<Seq<char>>) -> bool {
        !self.has_edge(self.key(v, w, name)) && name.is_some() && !self.multigraph
    }

    /// Setting an edge that is not refused. A present edge takes the label if
    /// one is given. An absent edge is created, and before it its end
    /// points where they are missing, `v` first; `label_v` and `label_w`
    /// are the labels that such new nodes get, `fallback` is the label of
    /// the new edge where none is given.
    pub open spec fn set_edge(
        self,
        v: Seq<char>,
        w: Seq<char>,
        name: Option<Seq<char>>,
        label: Option<E>,
        fallback: E,
        label_v: N,
        label_w: N,
    ) -> Self {
        let k = self.key(v, w, name);
        if self.has_edge(k) {
            match label {
                Some(l) => self.relabel_edge(k, l),
                None => self,
            }
        } else {
            let with_ends = self.ensure_node(v, label_v).ensure_node(w, label_w);
            let rec = edge_record(self.directed, v, w, name);
            match label {
                Some(l) => with_ends.link(k, rec, l),
                None => with_ends.link(k, rec, fallback),
            }
        }
    }

    /// Whether some edge leads from `v` to `w`; in an undirected graph,
    /// whether some edge joins them, of which `v` is the lesser end.
    pub open spec fn joined(self, v: Seq<char>, w: Seq<char>) -> bool {
        exists|k: Seq<char>|
            self.has_edge(k) && #[trigger] self.edge[k].rec.v == v && self.edge[k].rec.w == w
    }

    /// The records of all edges, in the order of their creation.
    pub open spec fn edge_records(self) -> Seq<EdgeView> {
        Seq::new(self.edges.len(), |i: int| self.edge[self.edges[i]].rec)
    }

    /// The nodes without incoming edges, in the order of their creation.
    pub open spec fn sources(self) -> Seq<Seq<char>> {
        keep(self.nodes, |v: Seq<char>| self.node[v].ins.len() == 0)
    }

    /// The nodes without outgoing edges, in the order of their creation.
    pub open spec fn sinks(self) -> Seq<Seq<char>> {
        keep(self.nodes, |v: Seq<char>| self.node[v].outs.len() == 0)
    }

    /// The neighbours of a node `v`: its predecessors, then those of its
    /// successors that are not among them.
    pub open spec fn neighbours(self, v: Seq<char>) -> Seq<Seq<char>> {
        self.node[v].preds.ids + keep(
            self.node[v].sucs.ids,
            |u: Seq<char>| !self.node[v].preds.ids.contains(u),
        )
    }

    /// Where a traversal goes from a node `v`: along the edges in a
    /// directed graph, to all neighbours in an undirected one.
    pub open spec fn steps(self, v: Seq<char>) -> Seq<Seq<char>> {
        if self.directed {
            self.node[v].sucs.ids
        } else {
            self.neighbours(v)
        }
    }

    // ---------------------------------------------------------------
    // Hierarchy
    // ---------------------------------------------------------------
    /// The parent of `v`; the sentinel for a top-level node and for anything
    /// that is no node.
    pub open spec fn parent_of(self, v: Seq<char>) -> Seq<char> {
        if self.nodes.contains(v) {
            self.node[v].parent
        } else {
            sentinel()
        }
    }

    /// The direct children of `p`, where the sentinel stands for the top
    /// level.
    pub open spec fn children_of(self, p: Seq<char>) -> Seq<Seq<char>> {
        if p == sentinel() {
            self.root_children
        } else {
            self.node[p].children
        }
    }

    /// What stands `n` steps up from `v`: `v` itself, its parent, its
    /// parent's parent, and in the end the sentinel.
    pub open spec fn ancestor(self, v: Seq<char>, n: nat) -> Seq<char>
        decreases n,
    {
        if n == 0 {
            v
        } else {
            self.ancestor(self.parent_of(v), (n - 1) as nat)
        }
    }

    /// Whether `v` is `p` or stands above it.
    pub open spec fn on_chain(self, p: Seq<char>, v: Seq<char>) -> bool {
        exists|n: nat| self.ancestor(p, n) == v
    }

    /// The graph with `list` as the child list of `p`, where the sentinel
    /// stands for the top level.
    pub open spec fn with_children(self, p: Seq<char>, list: Seq<Seq<char>>) -> Self {
        if p == sentinel() {
            GraphModel { root_children: list, ..self }
        } else {
            GraphModel {
                node: self.node.insert(p, NodeModel { children: list, ..self.node[p] }),
                ..self
            }
        }
    }

    /// `v` leaves the child list of its parent.
    pub open spec fn detach(self, v: Seq<char>) -> Self {
        let p = self.node[v].parent;
        self.with_children(p, seq_without(self.children_of(p), v))
    }

    /// `v` becomes the last child of `p`.
    pub open spec fn attach(self, v: Seq<char>, p: Seq<char>) -> Self {
        let moved = GraphModel {
            node: self.node.insert(v, NodeModel { parent: p, ..self.node[v] }),
            ..self
        };
        moved.with_children(p, moved.children_of(p).push(v))
    }

    /// `v` moves from its parent to `p`.
    pub open spec fn reparent(self, v: Seq<char>, p: Seq<char>) -> Self {
        self.detach(v).attach(v, p)
    }

    /// The parent that `parent` reports for `v`: none outside a compound
    /// graph, none for a top-level node, none for what is no node.
    pub open spec fn parent_link(self, v: Seq<char>) -> Option<Seq<char>> {
        if self.compound && self.parent_of(v) != sentinel() {
            Some(self.parent_of(v))
        } else {
            None
        }
    }

    /// The children that `children` reports for `v`. In a compound graph,
    /// the direct children of a node, and for the sentinel the top-level
    /// nodes. In any other graph all nodes count as children of the
    /// sentinel, and nothing else has children.
    pub open spec fn children_list(self, v: Seq<char>) -> Seq<Seq<char>> {
        if self.compound {
            if v == sentinel() {
                self.root_children
            } else if self.has_node(v) {
                self.node[v].children
            } else {
                Seq::empty()
            }
        } else if v == sentinel() {
            self.nodes
        } else {
            Seq::empty()
        }
    }

    /// Whether `set_parent` refuses to put `v` under `parent` because `v`
    /// is `parent` or stands above it.
    pub open spec fn would_cycle(self, v: Seq<char>, parent: Option<Seq<char>>) -> bool {
        match parent {
            Some(p) => self.on_chain(p, v),
            None => false,
        }
    }

    /// Setting the parent where it is not refused: missing nodes are
    /// created, the parent first, and `v` moves under `parent`, or to the
    /// top level.
    pub open spec fn set_parent(
        self,
        v: Seq<char>,
        parent: Option<Seq<char>>,
        label_p: N,
        label_v: N,
    ) -> Self {
        match parent {
            Some(p) => self.ensure_node(p, label_p).ensure_node(v, label_v).reparent(v, p),
            None => self.ensure_node(v, label_v).reparent(v, sentinel()),
        }
    }

    /// The listed nodes move to the top level, one after the other.
    pub open spec fn release(self, children: Seq<Seq<char>>) -> Self
        decreases children.len(),
    {
        if children.len() == 0 {
            self
        } else {
            self.release(children.drop_last()).reparent(children.last(), sentinel())
        }
    }

    /// The graph without the node `v` and what it stores for it.
    pub open spec fn drop_node(self, v: Seq<char>) -> Self {
        GraphModel { nodes: seq_without(self.nodes, v), node: self.node.remove(v), ..self }
    }

    /// Removing a node: its incoming edges go, then its outgoing edges; its
    /// children move to the top level; then the node itself goes. Nothing
    /// happens where `v` is no node.
    pub open spec fn remove_node(self, v: Seq<char>) -> Self {
        if !self.has_node(v) {
            self
        } else {
            let a = self.remove_edges(self.node[v].ins);
            let b = a.remove_edges(a.node[v].outs);
            let c = b.release(b.node[v].children);
            c.detach(v).drop_node(v)
        }
    }

    // ---------------------------------------------------------------
    // Filtering
    // ---------------------------------------------------------------
    /// The rank of a node: a number that is greater than the rank of its
    /// parent.
    pub open spec fn rank_of(self, x: Seq<char>) -> nat {
        (choose|rank: Map<Seq<char>, nat>| self.ranked(rank))[x]
    }

    /// The nearest of `x` and the nodes above it that is among `kept`; the
    /// sentinel where there is none.
    pub open spec fn nearest(self, kept: Seq<Seq<char>>, x: Seq<char>) -> Seq<char>
        decreases self.rank_of(x),
        when self.hierarchy_ok()
    {
        if x == sentinel() || !self.nodes.contains(x) {
            sentinel()
        } else if kept.contains(x) {
            x
        } else if self.node[x].parent == sentinel() {
            sentinel()
        } else {
            self.nearest(kept, self.node[x].parent)
        }
    }

    /// This graph with copies of those of the nodes `ids` that are marked in
    /// `keep`, each with the label listed for it.
    pub open spec fn copy_nodes(self, ids: Seq<Seq<char>>, keep: Seq<bool>, labels: Seq<N>) -> Self
        decreases ids.len(),
    {
        if ids.len() == 0 {
            self
        } else {
            let prev = self.copy_nodes(ids.drop_last(), keep.drop_last(), labels.drop_last());
            if keep.last() {
                prev.set_node(ids.last(), Some(labels.last()), labels.last())
            } else {
                prev
            }
        }
    }

    /// This graph with copies of those of the edges `keys` of `source`
    /// whose end points it has, each with the label listed for it.
    pub open spec fn copy_edges(self, source: Self, keys: Seq<Seq<char>>, labels: Seq<E>) -> Self
        decreases keys.len(),
    {
        if keys.len() == 0 {
            self
        } else {
            let prev = self.copy_edges(source, keys.drop_last(), labels.drop_last());
            let rec = source.edge[keys.last()].rec;
            if prev.has_node(rec.v) && prev.has_node(rec.w) {
                prev.set_edge(
                    rec.v,
                    rec.w,
                    rec.name,
                    Some(labels.last()),
                    labels.last(),
                    prev.node[rec.v].label,
                    prev.node[rec.w].label,
                )
            } else {
                prev
            }
        }
    }

    /// Putting the node `v` of this graph under `p`, or at the top level
    /// where `p` is the sentinel; nothing happens where that is refused.
    pub open spec fn try_set_parent(self, v: Seq<char>, p: Seq<char>) -> Self {
        if p == sentinel() {
            self.reparent(v, sentinel())
        } else if self.on_chain(p, v) {
            self
        } else {
            self.reparent(v, p)
        }
    }

    /// This graph with each of its nodes `ids` put under the nearest of its
    /// ancestors in `source` that this graph has.
    pub open spec fn copy_parents(self, source: Self, ids: Seq<Seq<char>>) -> Self
        decreases ids.len(),
    {
        if ids.len() == 0 {
            self
        } else {
            let prev = self.copy_parents(source, ids.drop_last());
            let v = ids.last();
            prev.try_set_parent(v, source.nearest(prev.nodes, source.parent_of(v)))
        }
    }

    /// The graph that filtering makes of this one: an empty graph of the
    /// same kind, to which are copied the nodes marked in `keep`, then the
    /// edges between them, then, in a compound graph, the hierarchy, where
    /// each node goes under its nearest ancestor that was kept.
    pub open spec fn filtered(self, keep: Seq<bool>, node_labels: Seq<N>, edge_labels: Seq<E>) -> Self {
        let nodes = Self::empty(self.directed, self.multigraph, self.compound).copy_nodes(
            self.nodes,
            keep,
            node_labels,
        );
        let edges = nodes.copy_edges(self, self.edges, edge_labels);
        if self.compound {
            edges.copy_parents(self, edges.nodes)
        } else {
            edges
        }
    }

    // ---------------------------------------------------------------
    // Invariant
    // ---------------------------------------------------------------
    /// The node list and the node map speak of the same, legal, identifiers.
    pub open spec fn nodes_ok(self) -> bool {
        &&& self.nodes.no_duplicates()
        &&& forall|v: Seq<char>| #[trigger] self.node.dom().contains(v) <==> self.nodes.contains(v)
        &&& forall|v: Seq<char>| #[trigger] self.nodes.contains(v) ==> legal_id(v)
    }

    /// The edge `k` is filed under its own key, joins two nodes, and stands
    /// in the lists of both.
    pub open spec fn edge_ok(self, k: Seq<char>) -> bool {
        let rec = self.edge[k].rec;
        &&& k == edge_key(self.directed, rec.v, rec.w, rec.name)
        &&& is_canonical(self.directed, rec)
        &&& (rec.name.is_some() ==> self.multigraph)
        &&& self.nodes.contains(rec.v)
        &&& self.nodes.contains(rec.w)
        &&& self.node[rec.w].ins.contains(k)
        &&& self.node[rec.w].in_rec[k] == rec
        &&& self.node[rec.v].outs.contains(k)
        &&& self.node[rec.v].out_rec[k] == rec
    }

    /// The lists of node `v` are consistent and hold only edges of the
    /// graph that end, or start, at `v`.
    pub open spec fn node_edges_ok(self, v: Seq<char>) -> bool {
        let n = self.node[v];
        &&& n.adjacency_ok()
        &&& forall|k: Seq<char>| #[trigger]
            n.ins.contains(k) ==> self.edges.contains(k) && self.edge[k].rec == n.in_rec[k]
                && n.in_rec[k].w == v
        &&& forall|k: Seq<char>| #[trigger]
            n.outs.contains(k) ==> self.edges.contains(k) && self.edge[k].rec == n.out_rec[k]
                && n.out_rec[k].v == v
    }

    /// The edge list and the edge map speak of the same keys, every edge is
    /// in order, and so are the lists of every node.
    pub open spec fn edges_ok(self) -> bool {
        &&& self.edges.no_duplicates()
        &&& forall|k: Seq<char>| #[trigger] self.edge.dom().contains(k) <==> self.edges.contains(k)
        &&& forall|k: Seq<char>| #[trigger] self.edges.contains(k) ==> self.edge_ok(k)
        &&& forall|v: Seq<char>| #[trigger] self.nodes.contains(v) ==> self.node_edges_ok(v)
    }

    /// Every node with a parent ranks above it.
    pub open spec fn ranked(self, rank: Map<Seq<char>, nat>) -> bool {
        forall|v: Seq<char>| #[trigger]
            self.nodes.contains(v) && self.node[v].parent != sentinel() ==> rank[self.node[v].parent]
                < rank[v]
    }

    /// Node `v` stands in the child list of its parent, and its own child
    /// list holds exactly the nodes whose parent it is.
    pub open spec fn place_ok(self, v: Seq<char>) -> bool {
        let n = self.node[v];
        &&& (n.parent == sentinel() || self.nodes.contains(n.parent))
        &&& self.children_of(n.parent).contains(v)
        &&& n.children.no_duplicates()
        &&& forall|c: Seq<char>| #[trigger]
            n.children.contains(c) ==> self.nodes.contains(c) && self.node[c].parent == v
    }

    /// Each node has one parent, the child lists mirror the parents, and
    /// following the parents never comes back to where it began.
    pub open spec fn hierarchy_ok(self) -> bool {
        &&& self.root_children.no_duplicates()
        &&& forall|c: Seq<char>| #[trigger]
            self.root_children.contains(c) ==> self.nodes.contains(c) && self.node[c].parent
                == sentinel()
        &&& forall|v: Seq<char>| #[trigger] self.nodes.contains(v) ==> self.place_ok(v)
        &&& exists|rank: Map<Seq<char>, nat>| self.ranked(rank)
    }

    /// The graph is consistent.
    pub open spec fn inv(self) -> bool {
        &&& self.nodes_ok()
        &&& self.edges_ok()
        &&& self.hierarchy_ok()
    }
}

impl<N, E> GraphModel<N, E> {
    /// The empty graph is consistent.
    pub proof fn lemma_empty_ok(directed: bool, multigraph: bool, compound: bool)
        ensures
            Self::empty(directed, multigraph, compound).inv(),
    {
        let g = Self::empty(directed, multigraph, compound);
        assert(g.ranked(Map::<Seq<char>, nat>::empty()));
    }

    /// In a consistent graph the end points of every edge are nodes.
    pub proof fn lemma_key_ends(self, v: Seq<char>, w: Seq<char>, name: Option<Seq<char>>)
        requires
            self.inv(),
            self.has_edge(self.key(v, w, name)),
            legal_id(v),
            legal_id(w),
        ensures
            self.has_node(v),
            self.has_node(w),
    {
        let k = self.key(v, w, name);
        assert(self.edge_ok(k));
        let rec = self.edge[k].rec;
        lemma_key_parts(self.directed, v, w, name, rec.v, rec.w, rec.name);
    }

    /// A new label on a node changes nothing else.
    pub proof fn lemma_relabel_node_ok(self, v: Seq<char>, label: N)
        requires
            self.inv(),
            self.has_node(v),
        ensures
            self.relabel_node(v, label).inv(),
    {
        let after = self.relabel_node(v, label);
        assert forall|k: Seq<char>| #[trigger] after.edges.contains(k) implies after.edge_ok(k) by {
            assert(self.edge_ok(k));
        }
        assert forall|x: Seq<char>| #[trigger] after.nodes.contains(x) implies after.node_edges_ok(
            x,
        ) by {
            assert(self.node_edges_ok(x));
        }
        assert forall|x: Seq<char>| #[trigger] after.nodes.contains(x) implies after.place_ok(x) by {
            assert(self.place_ok(x));
            assert(self.place_ok(self.node[x].parent) || self.node[x].parent == sentinel());
        }
        let rank = choose|rank: Map<Seq<char>, nat>| self.ranked(rank);
        assert(after.ranked(rank));
    }

    /// A new node leaves the graph consistent.
    pub proof fn lemma_add_node_ok(self, v: Seq<char>, label: N)
        requires
            self.inv(),
            !self.has_node(v),
            legal_id(v),
        ensures
            self.add_node(v, label).inv(),
            !self.root_children.contains(v),
    {
        let after = self.add_node(v, label);
        lemma_push_contains(self.nodes, v);
        lemma_push_contains(self.root_children, v);
        lemma_legal_not_sentinel(v);
        assert forall|k: Seq<char>| #[trigger] after.edges.contains(k) implies after.edge_ok(k) by {
            assert(self.edge_ok(k));
        }
        assert forall|x: Seq<char>| #[trigger] after.nodes.contains(x) implies after.node_edges_ok(
            x,
        ) by {
            if x != v {
                assert(self.node_edges_ok(x));
            } else {
                let n = after.node[x];
                assert(n.preds.agrees(n.ins, n.in_rec, true));
                assert(n.sucs.agrees(n.outs, n.out_rec, false));
            }
        }
        assert forall|x: Seq<char>| #[trigger] after.nodes.contains(x) implies after.place_ok(x) by {
            if x != v {
                assert(self.place_ok(x));
            }
        }
        let rank = choose|rank: Map<Seq<char>, nat>| self.ranked(rank);
        assert(after.ranked(rank));
    }
}

} // verus!
