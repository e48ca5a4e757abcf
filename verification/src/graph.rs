//! The graph store: nodes and edges, kept by string identifier in the order
//! of their creation, with adjacency kept per node.

use crate::edge::{
    clone_name, edge_args_to_id, edge_args_to_obj, edge_key, edge_obj_to_id, edge_record,
    is_canonical, legal_id, legal_name, lemma_legal_not_sentinel, lemma_record_canonical,
    name_view, sentinel, Edge, EdgeView, GRAPH_NODE,
};
use crate::error::{EdgeError, HierarchyError};
use crate::laws::{law_edge_count, law_node_count};
use crate::removal::law_remove_node;
use crate::model::{
    keep, lemma_keep_ends, lemma_keep_step, lemma_push_contains, lemma_select_ends,
    lemma_select_step, lemma_tally_bounds, lemma_without, lemma_without_first, select,
    seq_without, EdgeModel, GraphModel, Neighbours, NodeModel,
};
use crate::ordered_map::OrderedMap;
use vstd::prelude::*;
use vstd::string::*;

verus! {

/// The kind of graph to create. A field left out takes its default: directed,
/// no multigraph, not compound.
#[derive(Default)]
pub struct GraphOption {
    pub directed: Option<bool>,
    pub multigraph: Option<bool>,
    pub compound: Option<bool>,
}

/// A rule that gives a label to a node or an edge from its identifier.
pub trait LabelRule<L> {
    /// Whether the rule may give `label` to `id`. A rule that does not say
    /// may give any label.
    open spec fn yields(&self, id: Seq<char>, label: L) -> bool {
        true
    }

    fn label_for(&self, id: String) -> (label: L)
        ensures
            self.yields(id@, label),
    ;
}

/// The rule that labels each node or edge with its own identifier.
pub struct IdLabel;

impl LabelRule<String> for IdLabel {
    open spec fn yields(&self, id: Seq<char>, label: String) -> bool {
        label@ == id
    }

    fn label_for(&self, id: String) -> (label: String) {
        id
    }
}

/// The label of a node that is created without one: a fixed value (the
/// type's default where none is given) or the result of a rule.
#[verifier::reject_recursive_types(N)]
pub enum DefaultNodeLabel<N> {
    Val(Option<N>),
    Func(Box<dyn LabelRule<N>>),
}

/// The label of an edge that is created without one.
#[verifier::reject_recursive_types(E)]
pub enum DefaultEdgeLabel<E> {
    Val(Option<E>),
    Func(Box<dyn LabelRule<E>>),
}

/// An edge, or a string that names one.
pub enum EdgeOrString<E> {
    Edge(E),
    String(String),
}

/// The label of an edge, or a string that stands for it.
pub enum EdgeLabelOrString<E> {
    EdgeLabel(E),
    String(String),
}

impl<N: Default + Clone> DefaultNodeLabel<N> {
    /// Whether a node `id` created without a label may get `label`.
    pub open spec fn assigns(&self, id: Seq<char>, label: N) -> bool {
        match self {
            DefaultNodeLabel::Val(Some(fixed)) => cloned(*fixed, label),
            DefaultNodeLabel::Val(None) => N::default.ensures((), label),
            DefaultNodeLabel::Func(rule) => rule.yields(id, label),
        }
    }
}

impl<E: Default + Clone> DefaultEdgeLabel<E> {
    /// Whether an edge with key `id` created without a label may get `label`.
    pub open spec fn assigns(&self, id: Seq<char>, label: E) -> bool {
        match self {
            DefaultEdgeLabel::Val(Some(fixed)) => cloned(*fixed, label),
            DefaultEdgeLabel::Val(None) => E::default.ensures((), label),
            DefaultEdgeLabel::Func(rule) => rule.yields(id, label),
        }
    }
}

/// The records of a list of edges.
pub open spec fn edge_views(list: Seq<Edge>) -> Seq<EdgeView> {
    Seq::new(list.len(), |i: int| list[i]@)
}

/// The records of a map of edges, by key.
pub open spec fn records(m: OrderedMap<Edge>) -> Map<Seq<char>, EdgeView> {
    Map::new(|k: Seq<char>| m.as_map().dom().contains(k), |k: Seq<char>| m.as_map()[k]@)
}

/// What the graph stores for one node.
pub struct NodeEntry<N> {
    pub label: N,
    pub ins: OrderedMap<Edge>,
    pub outs: OrderedMap<Edge>,
    pub preds: OrderedMap<usize>,
    pub sucs: OrderedMap<usize>,
    pub parent: String,
    pub children: OrderedMap<bool>,
}

impl<N> NodeEntry<N> {
    /// The maps of the entry are in order.
    pub open spec fn wf(&self) -> bool {
        &&& self.ins.wf()
        &&& self.outs.wf()
        &&& self.preds.wf()
        &&& self.sucs.wf()
        &&& self.children.wf()
    }

    /// What the entry says of its node.
    pub open spec fn model(&self) -> NodeModel<N> {
        NodeModel {
            label: self.label,
            ins: self.ins.key_seq(),
            in_rec: records(self.ins),
            outs: self.outs.key_seq(),
            out_rec: records(self.outs),
            preds: Neighbours { ids: self.preds.key_seq(), count: self.preds.as_map() },
            sucs: Neighbours { ids: self.sucs.key_seq(), count: self.sucs.as_map() },
            parent: self.parent@,
            children: self.children.key_seq(),
        }
    }

    fn fresh(label: N) -> (r: Self)
        ensures
            r.wf(),
            r.model() == NodeModel::fresh(label),
    {
        let r = NodeEntry {
            label,
            ins: OrderedMap::new(),
            outs: OrderedMap::new(),
            preds: OrderedMap::new(),
            sucs: OrderedMap::new(),
            parent: String::from_str(GRAPH_NODE),
            children: OrderedMap::new(),
        };
        proof {
            reveal_strlit("\x00");
            assert(r.parent@ =~= sentinel());
            assert(records(r.ins) =~= Map::<Seq<char>, EdgeView>::empty());
            assert(records(r.outs) =~= Map::<Seq<char>, EdgeView>::empty());
        }
        r
    }
}

/// What the graph stores for one edge.
pub struct EdgeEntry<E> {
    pub obj: Edge,
    pub label: E,
}

impl<E> EdgeEntry<E> {
    /// What the entry says of its edge.
    pub open spec fn model(&self) -> EdgeModel<E> {
        EdgeModel { rec: self.obj@, label: self.label }
    }
}

/// A graph with a label of its own (`GL`), labelled nodes (`N`) and labelled
/// edges (`E`). Whether it is directed, a multigraph or compound is fixed
/// when it is created.
#[verifier::reject_recursive_types(N)]
#[verifier::reject_recursive_types(E)]
pub struct Graph<GL, N, E> {
    is_directed: bool,
    is_multigraph: bool,
    is_compound: bool,
    label: GL,
    default_node_label_fn: DefaultNodeLabel<N>,
    default_edge_label_fn: DefaultEdgeLabel<E>,
    nodes: OrderedMap<NodeEntry<N>>,
    edges: OrderedMap<EdgeEntry<E>>,
    root_children: OrderedMap<bool>,
    node_count: usize,
    edge_count: usize,
}

impl<GL, N, E> View for Graph<GL, N, E> {
    type V = GraphModel<N, E>;

    closed spec fn view(&self) -> GraphModel<N, E> {
        GraphModel {
            directed: self.is_directed,
            multigraph: self.is_multigraph,
            compound: self.is_compound,
            nodes: self.nodes.key_seq(),
            node: Map::new(
                |k: Seq<char>| self.nodes.as_map().dom().contains(k),
                |k: Seq<char>| self.nodes.as_map()[k].model(),
            ),
            edges: self.edges.key_seq(),
            edge: Map::new(
                |k: Seq<char>| self.edges.as_map().dom().contains(k),
                |k: Seq<char>| self.edges.as_map()[k].model(),
            ),
            root_children: self.root_children.key_seq(),
        }
    }
}

impl<GL, N, E> Graph<GL, N, E> {
    /// The maps are in order and the counters count them.
    pub closed spec fn stored_ok(&self) -> bool {
        &&& self.nodes.wf()
        &&& self.edges.wf()
        &&& self.root_children.wf()
        &&& forall|i: int|
            0 <= i < self.nodes.val_seq().len() ==> (#[trigger] self.nodes.val_seq()[i]).wf()
        &&& self.node_count == self.nodes.key_seq().len()
        &&& self.edge_count == self.edges.key_seq().len()
    }

    /// The graph is well formed: its storage is in order and what it
    /// stores is a consistent graph.
    pub open spec fn wf(&self) -> bool {
        &&& self.stored_ok()
        &&& self@.inv()
    }

    /// The graph's own label.
    pub closed spec fn graph_label(&self) -> GL {
        self.label
    }

    /// The rule for the labels of nodes created without one.
    pub closed spec fn node_default(&self) -> DefaultNodeLabel<N> {
        self.default_node_label_fn
    }

    /// The rule for the labels of edges created without one.
    pub closed spec fn edge_default(&self) -> DefaultEdgeLabel<E> {
        self.default_edge_label_fn
    }
}

impl<GL: Default, N: Default + Clone, E: Default + Clone> Graph<GL, N, E> {
    /// An empty graph of the given kind.
    pub fn new(opts: Option<GraphOption>) -> (g: Self)
        ensures
            g.wf(),
            g@ == GraphModel::<N, E>::empty(
                match opts {
                    Some(o) => o.directed != Some(false),
                    None => true,
                },
                match opts {
                    Some(o) => o.multigraph == Some(true),
                    None => false,
                },
                match opts {
                    Some(o) => o.compound == Some(true),
                    None => false,
                },
            ),
            g.node_default() == DefaultNodeLabel::<N>::Val(None),
            g.edge_default() == DefaultEdgeLabel::<E>::Val(None),
            GL::default.ensures((), g.graph_label()),
    {
        let mut directed = true;
        let mut multigraph = false;
        let mut compound = false;
        if let Some(o) = opts {
            if let Some(d) = o.directed {
                directed = d;
            }
            if let Some(m) = o.multigraph {
                multigraph = m;
            }
            if let Some(c) = o.compound {
                compound = c;
            }
        }
        let g = Graph {
            is_directed: directed,
            is_multigraph: multigraph,
            is_compound: compound,
            label: GL::default(),
            default_node_label_fn: DefaultNodeLabel::Val(None),
            default_edge_label_fn: DefaultEdgeLabel::Val(None),
            nodes: OrderedMap::new(),
            edges: OrderedMap::new(),
            root_children: OrderedMap::new(),
            node_count: 0,
            edge_count: 0,
        };
        proof {
            assert(g@.node =~= Map::<Seq<char>, NodeModel<N>>::empty());
            assert(g@.edge =~= Map::<Seq<char>, EdgeModel<E>>::empty());
            GraphModel::<N, E>::lemma_empty_ok(directed, multigraph, compound);
        }
        g
    }

    /// Whether the graph is directed.
    pub fn is_directed(&self) -> (r: bool)
        ensures
            r == self@.directed,
    {
        self.is_directed
    }

    /// Whether several edges, told apart by name, may join the same nodes.
    pub fn is_multigraph(&self) -> (r: bool)
        ensures
            r == self@.multigraph,
    {
        self.is_multigraph
    }

    /// Whether nodes may have a parent.
    pub fn is_compound(&self) -> (r: bool)
        ensures
            r == self@.compound,
    {
        self.is_compound
    }

    /// The label that a node `node_id` gets when it is created without one.
    pub fn default_node_label(&self, node_id: String) -> (label: N)
        ensures
            self.node_default().assigns(node_id@, label),
    {
        match &self.default_node_label_fn {
            DefaultNodeLabel::Func(rule) => rule.label_for(node_id),
            DefaultNodeLabel::Val(fixed) => match fixed {
                Some(l) => l.clone(),
                None => N::default(),
            },
        }
    }

    /// The number of nodes.
    pub fn node_count(&self) -> (n: usize)
        requires
            self.wf(),
        ensures
            n == self@.nodes.len(),
            n == self@.nodes.to_set().len(),
    {
        proof {
            law_node_count(self@);
        }
        self.node_count
    }

    /// Whether `v` is a node of the graph.
    pub fn has_node(&self, v: &String) -> (r: bool)
        requires
            self.wf(),
        ensures
            r == self@.has_node(v@),
    {
        self.nodes.contains_key(v)
    }

    /// The label of node `v`.
    pub fn node(&self, v: &String) -> (r: Option<&N>)
        requires
            self.wf(),
        ensures
            r.is_some() == self@.has_node(v@),
            r.is_some() ==> *r.unwrap() == self@.node[v@].label,
    {
        match self.nodes.get(v) {
            Some(entry) => Some(&entry.label),
            None => None,
        }
    }

    /// The nodes, in the order of their creation.
    pub fn nodes(&self) -> (r: Vec<String>)
        requires
            self.wf(),
        ensures
            r.deep_view() == self@.nodes,
    {
        self.nodes.keys()
    }

    /// Creates the node `v`, or gives it a new label. A new node gets
    /// `value`, or else the default label; it has no edges and, in a compound
    /// graph, no parent. A node that is present takes `value` if there is
    /// one and is otherwise left as it is.
    pub fn set_node(&mut self, v: String, value: Option<N>) -> (r: &mut Self)
        requires
            old(self).wf(),
            legal_id(v@),
        ensures
            *final(self) == *final(r),
            r.wf(),
            r@.has_node(v@),
            r@ == old(self)@.set_node(v@, value, r@.node[v@].label),
            !old(self)@.has_node(v@) && value.is_none() ==> old(self).node_default().assigns(
                v@,
                r@.node[v@].label,
            ),
            r.node_default() == old(self).node_default(),
            r.edge_default() == old(self).edge_default(),
            r.graph_label() == old(self).graph_label(),
    {
        let ghost before = *self;
        match self.nodes.position(&v) {
            Some(i) => {
                if let Some(label) = value {
                    proof {
                        self.nodes.lemma_pos(v@);
                    }
                    let entry = self.nodes.value_at_mut(i);
                    entry.label = label;
                    proof {
                        assert(self@.node =~= before@.node.insert(
                            v@,
                            before@.node[v@].with_label(label),
                        ));
                        assert(self@ == before@.relabel_node(v@, label));
                        before@.lemma_relabel_node_ok(v@, label);
                    }
                }
            },
            None => {
                let label = match value {
                    Some(l) => l,
                    None => self.default_node_label(v.clone()),
                };
                self.root_children.insert(v.clone(), true);
                let ghost key = v@;
                self.nodes.insert(v, NodeEntry::fresh(label));
                self.node_count = self.nodes.len();
                proof {
                    assert(self@.node =~= before@.node.insert(key, NodeModel::fresh(label)));
                    assert(self@ == before@.add_node(key, label));
                    before@.lemma_add_node_ok(key, label);
                    assert(self.nodes.key_seq()[before.nodes.key_seq().len() as int] == key);
                    assert(self.nodes.contains(key));
                }
            },
        }
        self
    }

    /// The label that an edge with key `edge_id` gets when it is created
    /// without one.
    pub fn default_edge_label(&self, edge_id: String) -> (label: E)
        ensures
            self.edge_default().assigns(edge_id@, label),
    {
        match &self.default_edge_label_fn {
            DefaultEdgeLabel::Func(rule) => rule.label_for(edge_id),
            DefaultEdgeLabel::Val(fixed) => match fixed {
                Some(l) => l.clone(),
                None => E::default(),
            },
        }
    }

    /// The number of edges.
    pub fn edge_count(&self) -> (n: usize)
        requires
            self.wf(),
        ensures
            n == self@.edges.len(),
            n == self@.edges.to_set().len(),
    {
        proof {
            law_edge_count(self@);
        }
        self.edge_count
    }

    /// Files a new edge between two nodes of the graph.
    fn link_edge(&mut self, key: String, obj: Edge, label: E)
        requires
            old(self).wf(),
            !old(self)@.has_edge(key@),
            key@ == edge_key(old(self)@.directed, obj@.v, obj@.w, obj@.name),
            is_canonical(old(self)@.directed, obj@),
            obj@.name.is_some() ==> old(self)@.multigraph,
            old(self)@.has_node(obj@.v),
            old(self)@.has_node(obj@.w),
        ensures
            final(self).wf(),
            final(self)@ == old(self)@.link(key@, obj@, label),
            final(self).node_default() == old(self).node_default(),
            final(self).edge_default() == old(self).edge_default(),
            final(self).graph_label() == old(self).graph_label(),
    {
        let ghost before = *self;
        let ghost k = key@;
        let ghost rec = obj@;
        proof {
            assert(before@.node_edges_ok(rec.w));
            assert(before@.node_edges_ok(rec.v));
            self.nodes.lemma_pos(rec.w);
            self.nodes.lemma_pos(rec.v);
        }
        let iw = self.nodes.position(&obj.w).unwrap();
        let entry = self.nodes.value_at_mut(iw);
        let ghost old_w = *entry;
        proof {
            assert(old_w.model() == before@.node[rec.w]);
            lemma_tally_bounds(old_w.model().ins, old_w.model().in_rec, true, rec.v);
        }
        entry.ins.insert(key.clone(), obj.clone());
        let listed = entry.ins.len();
        increment_or_init_entry(&mut entry.preds, &obj.v, listed);
        proof {
            assert(records(entry.ins) =~= records(old_w.ins).insert(k, rec));
            assert(entry.model() == old_w.model().with_in(k, rec));
        }
        let ghost mid = *self;
        proof {
            self.nodes.lemma_pos(rec.v);
        }
        let iv = self.nodes.position(&obj.v).unwrap();
        let entry = self.nodes.value_at_mut(iv);
        let ghost old_v = *entry;
        proof {
            lemma_tally_bounds(old_v.model().outs, old_v.model().out_rec, false, rec.w);
            before@.node[rec.w].lemma_with_in(k, rec);
        }
        entry.outs.insert(key.clone(), obj.clone());
        let listed = entry.outs.len();
        increment_or_init_entry(&mut entry.sucs, &obj.w, listed);
        proof {
            assert(records(entry.outs) =~= records(old_v.outs).insert(k, rec));
            assert(entry.model() == old_v.model().with_out(k, rec));
        }
        self.edges.insert(key, EdgeEntry { obj, label });
        self.edge_count = self.edges.len();
        proof {
            let target = before@.node.insert(rec.w, before@.node[rec.w].with_in(k, rec));
            assert(mid@.node =~= target);
            assert(self@.node =~= target.insert(rec.v, target[rec.v].with_out(k, rec)));
            assert(self@.edge =~= before@.edge.insert(k, EdgeModel { rec, label }));
            assert(self@ == before@.link(k, rec, label));
            before@.lemma_link_ok(k, rec, label);
        }
    }

    /// What holds of the graph `after` once the edge between `v` and `w`
    /// was set in the graph `before`: the graph is `before` with the edge
    /// set, where the labels that were not given are those that `after`
    /// holds, and each of these was assigned by the rule for it.
    pub open spec fn edge_was_set(
        before: Self,
        after: Self,
        v: Seq<char>,
        w: Seq<char>,
        name: Option<Seq<char>>,
        edge_label: Option<E>,
    ) -> bool {
        let k = before@.key(v, w, name);
        &&& after@.has_edge(k)
        &&& after@.has_node(v)
        &&& after@.has_node(w)
        &&& after@ == before@.set_edge(
            v,
            w,
            name,
            edge_label,
            after@.edge[k].label,
            after@.node[v].label,
            after@.node[w].label,
        )
        &&& !before@.has_edge(k) && edge_label.is_none() ==> before.edge_default().assigns(
            k,
            after@.edge[k].label,
        )
        &&& !before@.has_edge(k) && !before@.has_node(v) ==> before.node_default().assigns(
            v,
            after@.node[v].label,
        )
        &&& !before@.has_edge(k) && !before@.has_node(w) ==> before.node_default().assigns(
            w,
            after@.node[w].label,
        )
        &&& after.node_default() == before.node_default()
        &&& after.edge_default() == before.edge_default()
        &&& after.graph_label() == before.graph_label()
    }

    /// Creates the edge between `v` and `w`, or gives it a new label. An
    /// edge that is present takes `edge_label` if there is one. An edge
    /// that is absent is created, and with it its end points where they are
    /// missing; it gets `edge_label`, or else the default label. A new edge
    /// with a name is refused unless the graph is a multigraph, and the
    /// graph is then left as it was.
    pub fn set_edge(&mut self, v: &String, w: &String, edge_label: Option<E>, name: Option<String>) -> (r:
        Result<&mut Self, EdgeError>)
        requires
            old(self).wf(),
            legal_id(v@),
            legal_id(w@),
        ensures
            r.is_err() == old(self)@.refuses_edge(v@, w@, name_view(name)),
            match r {
                Ok(g) => *final(self) == *final(g) && g.wf() && Self::edge_was_set(
                    *old(self),
                    *g,
                    v@,
                    w@,
                    name_view(name),
                    edge_label,
                ),
                Err(e) => e == EdgeError::NamedEdgeOnSimpleGraph && *final(self) == *old(self),
            },
    {
        let ghost before = *self;
        let e = edge_args_to_id(&self.is_directed, v, w, &name);
        let ghost k = e@;
        match self.edges.position(&e) {
            Some(i) => {
                proof {
                    self.edges.lemma_pos(k);
                    assert(before@.edge_ok(k));
                    let rec = before@.edge[k].rec;
                    assert(before@.has_node(rec.v) && before@.has_node(rec.w));
                }
                if let Some(label) = edge_label {
                    let entry = self.edges.value_at_mut(i);
                    entry.label = label;
                    proof {
                        assert(self@.edge =~= before@.edge.insert(
                            k,
                            EdgeModel { rec: before@.edge[k].rec, label },
                        ));
                        assert(self@ == before@.relabel_edge(k, label));
                        before@.lemma_relabel_edge_ok(k, label);
                    }
                }
                proof {
                    before@.lemma_key_ends(v@, w@, name_view(name));
                }
                Ok(self)
            },
            None => {
                if name.is_some() && !self.is_multigraph {
                    return Err(EdgeError::NamedEdgeOnSimpleGraph);
                }
                self.set_node(v.clone(), None);
                let ghost first = *self;
                self.set_node(w.clone(), None);
                let label = match edge_label {
                    Some(l) => l,
                    None => self.default_edge_label(e.clone()),
                };
                let obj = edge_args_to_obj(&self.is_directed, v, w, &name);
                let ghost ends = *self;
                proof {
                    lemma_record_canonical(before@.directed, v@, w@, name_view(name));
                    lemma_push_contains(before@.nodes, v@);
                    lemma_push_contains(first@.nodes, w@);
                    let label_v = first@.node[v@].label;
                    let label_w = ends@.node[w@].label;
                    assert(first@ == before@.ensure_node(v@, label_v));
                    assert(ends@ == first@.ensure_node(w@, label_w));
                    assert(ends@.node[v@].label == label_v);
                }
                self.link_edge(e, obj, label);
                proof {
                    lemma_push_contains(ends@.edges, k);
                    assert(self@.edges[ends@.edges.len() as int] == k);
                    assert(self@.node[v@].label == ends@.node[v@].label);
                    assert(self@.node[w@].label == ends@.node[w@].label);
                    assert(self@.edge[k].label == label);
                }
                Ok(self)
            },
        }
    }

    /// Takes the edge filed under `key` out of the graph, if there is one.
    fn unlink_edge(&mut self, key: &String)
        requires
            old(self).wf(),
        ensures
            final(self).wf(),
            final(self)@ == old(self)@.remove_edge(key@),
            final(self).node_default() == old(self).node_default(),
            final(self).edge_default() == old(self).edge_default(),
            final(self).graph_label() == old(self).graph_label(),
    {
        let ghost before = *self;
        let ghost k = key@;
        if let Some(removed) = self.edges.remove(key) {
            let ghost rec = removed.obj@;
            proof {
                assert(rec == before@.edge[k].rec);
                assert(before@.edge_ok(k));
                assert(before@.node_edges_ok(rec.w));
                assert(before@.node_edges_ok(rec.v));
                self.nodes.lemma_pos(rec.w);
                before@.node[rec.w].lemma_without_in(k);
            }
            let iw = self.nodes.position(&removed.obj.w).unwrap();
            let entry = self.nodes.value_at_mut(iw);
            let ghost old_w = *entry;
            proof {
                assert(old_w.model() == before@.node[rec.w]);
            }
            entry.ins.remove(key);
            decrement_or_remove_entry(&mut entry.preds, &removed.obj.v);
            proof {
                assert(records(entry.ins) =~= records(old_w.ins).remove(k));
                assert(entry.model() == old_w.model().without_in(k, rec));
            }
            let ghost mid = *self;
            let ghost target = before@.node.insert(rec.w, before@.node[rec.w].without_in(k, rec));
            proof {
                self.nodes.lemma_pos(rec.v);
                assert(mid@.node =~= target);
                target[rec.v].lemma_without_out(k);
            }
            let iv = self.nodes.position(&removed.obj.v).unwrap();
            let entry = self.nodes.value_at_mut(iv);
            let ghost old_v = *entry;
            entry.outs.remove(key);
            decrement_or_remove_entry(&mut entry.sucs, &removed.obj.w);
            proof {
                assert(records(entry.outs) =~= records(old_v.outs).remove(k));
                assert(entry.model() == old_v.model().without_out(k, rec));
            }
            self.edge_count = self.edges.len();
            proof {
                assert(self@.node =~= target.insert(rec.v, target[rec.v].without_out(k, rec)));
                assert(self@.edge =~= before@.edge.remove(k));
                assert(self@ == before@.unlink(k));
                before@.lemma_unlink_ok(k);
            }
        } else {
            proof {
                assert(self@.edge =~= before@.edge);
                assert(self@.node =~= before@.node);
            }
        }
    }

    /// Removes the edge between `v` and `w` with the given name. Both end
    /// points lose it from their lists, and they stop being neighbours when
    /// it was the last edge between them. Nothing happens where there is
    /// no such edge.
    pub fn remove_edge(&mut self, v: &String, w: &String, name: Option<String>) -> (r: &mut Self)
        requires
            old(self).wf(),
        ensures
            *final(self) == *final(r),
            r.wf(),
            r@ == old(self)@.remove_edge(old(self)@.key(v@, w@, name_view(name))),
            r.node_default() == old(self).node_default(),
            r.edge_default() == old(self).edge_default(),
            r.graph_label() == old(self).graph_label(),
    {
        let e = edge_args_to_id(&self.is_directed, v, w, &name);
        self.unlink_edge(&e);
        self
    }

    /// Removes the edge that `e` describes.
    pub fn remove_edge_with_obj(&mut self, e: &Edge) -> (r: &mut Self)
        requires
            old(self).wf(),
        ensures
            *final(self) == *final(r),
            r.wf(),
            r@ == old(self)@.remove_edge(old(self)@.key(e@.v, e@.w, e@.name)),
            r.node_default() == old(self).node_default(),
            r.edge_default() == old(self).edge_default(),
            r.graph_label() == old(self).graph_label(),
    {
        self.remove_edge(&e.v, &e.w, clone_name(&e.name));
        self
    }

    /// Sets the edge between the end points of `e`, without a name.
    pub fn set_edge_with_obj(&mut self, e: &Edge, edge_label: Option<E>) -> (r: Result<
        &mut Self,
        EdgeError,
    >)
        requires
            old(self).wf(),
            legal_id(e@.v),
            legal_id(e@.w),
        ensures
            match r {
                Ok(g) => *final(self) == *final(g) && g.wf() && Self::edge_was_set(
                    *old(self),
                    *g,
                    e@.v,
                    e@.w,
                    None,
                    edge_label,
                ),
                Err(_) => false,
            },
    {
        self.set_edge(&e.v, &e.w, edge_label, None)
    }

    /// The label of the edge between `v` and `w` with the given name.
    pub fn edge(&self, v: &String, w: &String, name: Option<String>) -> (r: Option<&E>)
        requires
            self.wf(),
        ensures
            r.is_some() == self@.has_edge(self@.key(v@, w@, name_view(name))),
            r.is_some() ==> *r.unwrap() == self@.edge[self@.key(v@, w@, name_view(name))].label,
    {
        let e = edge_args_to_id(&self.is_directed, v, w, &name);
        match self.edges.get(&e) {
            Some(entry) => Some(&entry.label),
            None => None,
        }
    }

    /// The label of the edge that `edge` describes.
    pub fn edge_with_obj(&self, edge: &Edge) -> (r: Option<&E>)
        requires
            self.wf(),
        ensures
            r.is_some() == self@.has_edge(self@.key(edge@.v, edge@.w, edge@.name)),
            r.is_some() ==> *r.unwrap() == self@.edge[self@.key(
                edge@.v,
                edge@.w,
                edge@.name,
            )].label,
    {
        let e = edge_obj_to_id(&self.is_directed, edge);
        match self.edges.get(&e) {
            Some(entry) => Some(&entry.label),
            None => None,
        }
    }

    /// Whether there is an edge between `v` and `w` with the given name.
    pub fn has_edge(&self, v: &String, w: &String, name: Option<String>) -> (r: bool)
        requires
            self.wf(),
        ensures
            r == self@.has_edge(self@.key(v@, w@, name_view(name))),
    {
        let e = edge_args_to_id(&self.is_directed, v, w, &name);
        self.edges.contains_key(&e)
    }

    /// Whether the graph has the edge that `edge` describes.
    pub fn has_edge_with_obj(&self, edge: &Edge) -> (r: bool)
        requires
            self.wf(),
        ensures
            r == self@.has_edge(self@.key(edge@.v, edge@.w, edge@.name)),
    {
        let e = edge_obj_to_id(&self.is_directed, edge);
        self.edges.contains_key(&e)
    }

    /// The edges, in the order of their creation.
    pub fn edges(&self) -> (r: Vec<Edge>)
        requires
            self.wf(),
        ensures
            edge_views(r@) == self@.edge_records(),
    {
        let mut out: Vec<Edge> = Vec::new();
        let n = self.edges.len();
        let mut i: usize = 0;
        while i < n
            invariant
                self.wf(),
                n == self.edges.key_seq().len(),
                0 <= i <= n,
                out@.len() == i,
                forall|j: int| 0 <= j < i ==> (#[trigger] out@[j])@ == self@.edge[self@.edges[j]].rec,
            decreases n - i,
        {
            proof {
                self.edges.lemma_key_at(i as int);
            }
            out.push(self.edges.value_at(i).obj.clone());
            i += 1;
        }
        proof {
            assert(edge_views(out@) =~= self@.edge_records());
        }
        out
    }

    /// The nodes from which an edge leads to `v`, in the order in which
    /// they became predecessors; `None` where `v` is no node.
    pub fn predecessors(&self, v: &String) -> (r: Option<Vec<String>>)
        requires
            self.wf(),
        ensures
            r.is_some() == self@.has_node(v@),
            r.is_some() ==> r.unwrap().deep_view() == self@.node[v@].preds.ids,
    {
        match self.nodes.get(v) {
            Some(entry) => {
                proof {
                    self.lemma_entry_wf(v@);
                }
                Some(entry.preds.keys())
            },
            None => None,
        }
    }

    /// The nodes to which an edge leads from `v`, in the order in which
    /// they became successors; `None` where `v` is no node.
    pub fn successors(&self, v: &String) -> (r: Option<Vec<String>>)
        requires
            self.wf(),
        ensures
            r.is_some() == self@.has_node(v@),
            r.is_some() ==> r.unwrap().deep_view() == self@.node[v@].sucs.ids,
    {
        match self.nodes.get(v) {
            Some(entry) => {
                proof {
                    self.lemma_entry_wf(v@);
                }
                Some(entry.sucs.keys())
            },
            None => None,
        }
    }

    /// The predecessors and successors of `v`, each once: the predecessors
    /// first, then the successors that are no predecessors; `None` where
    /// `v` is no node.
    pub fn neighbors(&self, v: &String) -> (r: Option<Vec<String>>)
        requires
            self.wf(),
        ensures
            r.is_some() == self@.has_node(v@),
            r.is_some() ==> r.unwrap().deep_view() == self@.neighbours(v@),
    {
        match self.nodes.get(v) {
            Some(entry) => {
                proof {
                    self.lemma_entry_wf(v@);
                }
                let mut out = entry.preds.keys();
                let sucs = entry.sucs.keys();
                let ghost preds = entry.preds.key_seq();
                let ghost ok = |u: Seq<char>| !self@.node[v@].preds.ids.contains(u);
                let mut i: usize = 0;
                proof {
                    lemma_keep_ends(sucs.deep_view(), ok);
                    assert(out.deep_view() =~= preds + keep(sucs.deep_view().take(0), ok));
                }
                while i < sucs.len()
                    invariant
                        0 <= i <= sucs.len(),
                        entry.preds.wf(),
                        preds == entry.preds.key_seq(),
                        preds == self@.node[v@].preds.ids,
                        sucs.deep_view() == self@.node[v@].sucs.ids,
                        ok == |u: Seq<char>| !self@.node[v@].preds.ids.contains(u),
                        out.deep_view() == preds + keep(sucs.deep_view().take(i as int), ok),
                    decreases sucs.len() - i,
                {
                    proof {
                        lemma_keep_step(sucs.deep_view(), ok, i as int);
                        assert(sucs.deep_view()[i as int] == sucs@[i as int]@);
                    }
                    let ghost prev = out.deep_view();
                    if !entry.preds.contains_key(&sucs[i]) {
                        out.push(sucs[i].clone());
                        proof {
                            assert(out.deep_view() =~= prev.push(sucs@[i as int]@));
                            assert(out.deep_view() =~= preds + keep(
                                sucs.deep_view().take(i as int),
                                ok,
                            ).push(sucs@[i as int]@));
                        }
                    }
                    i += 1;
                }
                proof {
                    lemma_keep_ends(sucs.deep_view(), ok);
                }
                Some(out)
            },
            None => None,
        }
    }

    /// Whether `v` has nowhere to go: no successor in a directed graph, no
    /// neighbour in an undirected one. What is no node is a leaf.
    pub fn is_leaf(&self, v: &String) -> (r: bool)
        requires
            self.wf(),
        ensures
            r == (!self@.has_node(v@) || self@.steps(v@).len() == 0),
    {
        let found = if self.is_directed {
            self.successors(v)
        } else {
            self.neighbors(v)
        };
        match found {
            None => true,
            Some(list) => {
                proof {
                    assert(list.deep_view().len() == list@.len());
                }
                list.len() == 0
            },
        }
    }

    /// Moves the node `v` from under its parent to under `p`, where the
    /// sentinel stands for the top level.
    fn move_under(&mut self, v: &String, p: &String)
        requires
            old(self).wf(),
            old(self)@.has_node(v@),
            p@ == sentinel() || (old(self)@.has_node(p@) && !old(self)@.on_chain(p@, v@)),
        ensures
            final(self).wf(),
            final(self)@ == old(self)@.reparent(v@, p@),
            final(self).node_default() == old(self).node_default(),
            final(self).edge_default() == old(self).edge_default(),
            final(self).graph_label() == old(self).graph_label(),
    {
        let ghost before = *self;
        proof {
            self.nodes.lemma_pos(v@);
            before@.lemma_reparent_ok(v@, p@);
            assert(before@.place_ok(v@));
            lemma_legal_not_sentinel(v@);
            if p@ != sentinel() {
                assert(before@.ancestor(p@, 0) == p@);
            }
            before@.lemma_listed_once(p@, v@);
        }
        let iv = self.nodes.position(v).unwrap();
        let o = self.nodes.value_at(iv).parent.clone();
        proof {
            before@.lemma_listed_once(o@, v@);
            lemma_without(before@.children_of(o@), v@);
        }
        if is_root(&o) {
            self.root_children.remove(v);
            proof {
                assert(self@.node =~= before@.node);
            }
        } else {
            proof {
                self.nodes.lemma_pos(o@);
            }
            let io = self.nodes.position(&o).unwrap();
            let entry = self.nodes.value_at_mut(io);
            let ghost old_o = *entry;
            entry.children.remove(v);
            proof {
                assert(entry.model() == (NodeModel {
                    children: seq_without(old_o.model().children, v@),
                    ..old_o.model()
                }));
                assert(self@.node =~= before@.node.insert(
                    o@,
                    NodeModel {
                        children: seq_without(before@.node[o@].children, v@),
                        ..before@.node[o@]
                    },
                ));
            }
        }
        let ghost mid = *self;
        proof {
            assert(mid@ == before@.detach(v@));
            self.nodes.lemma_pos(v@);
        }
        let iv = self.nodes.position(v).unwrap();
        let entry = self.nodes.value_at_mut(iv);
        entry.parent = p.clone();
        let ghost moved = *self;
        proof {
            assert(moved@.node =~= mid@.node.insert(
                v@,
                NodeModel { parent: p@, ..mid@.node[v@] },
            ));
        }
        if is_root(p) {
            self.root_children.insert(v.clone(), true);
            proof {
                assert(self@.node =~= moved@.node);
            }
        } else {
            proof {
                self.nodes.lemma_pos(p@);
            }
            let ip = self.nodes.position(p).unwrap();
            let entry = self.nodes.value_at_mut(ip);
            let ghost old_p = *entry;
            entry.children.insert(v.clone(), true);
            proof {
                assert(entry.model() == (NodeModel {
                    children: old_p.model().children.push(v@),
                    ..old_p.model()
                }));
                assert(self@.node =~= moved@.node.insert(
                    p@,
                    NodeModel {
                        children: moved@.node[p@].children.push(v@),
                        ..moved@.node[p@]
                    },
                ));
            }
        }
        proof {
            assert(self@ == mid@.attach(v@, p@));
        }
    }

    /// What holds of the graph `after` once the parent of `v` was set in the
    /// graph `before`: the graph is `before` with the parent set, where the
    /// labels of nodes that had to be created are those that `after` holds,
    /// and each of these was assigned by the rule for node labels.
    pub open spec fn parent_was_set(
        before: Self,
        after: Self,
        v: Seq<char>,
        parent: Option<Seq<char>>,
    ) -> bool {
        let p = match parent {
            Some(p) => p,
            None => v,
        };
        &&& after@.has_node(v)
        &&& after@.has_node(p)
        &&& after@ == before@.set_parent(v, parent, after@.node[p].label, after@.node[v].label)
        &&& !before@.has_node(v) ==> before.node_default().assigns(v, after@.node[v].label)
        &&& !before@.has_node(p) ==> before.node_default().assigns(p, after@.node[p].label)
        &&& after.node_default() == before.node_default()
        &&& after.edge_default() == before.edge_default()
        &&& after.graph_label() == before.graph_label()
    }

    /// Sets `parent` as the parent of `v`, or moves `v` to the top level
    /// where `parent` is `None`. Nodes that are missing are created, the
    /// parent first. Refused, with the graph left as it was, where the
    /// graph is not compound, and where `v` is `parent` or stands above
    /// it.
    pub fn set_parent(&mut self, v: &String, parent: Option<String>) -> (r: Result<
        &mut Self,
        HierarchyError,
    >)
        requires
            old(self).wf(),
            legal_id(v@),
            legal_name(name_view(parent)),
        ensures
            r.is_ok() == (old(self)@.compound && !old(self)@.would_cycle(v@, name_view(parent))),
            match r {
                Ok(g) => *final(self) == *final(g) && g.wf() && Self::parent_was_set(
                    *old(self),
                    *g,
                    v@,
                    name_view(parent),
                ),
                Err(HierarchyError::NotCompound) => !old(self)@.compound && *final(self) == *old(
                    self,
                ),
                Err(HierarchyError::WouldCreateCycle { parent: p, node }) => old(self)@.compound
                    && Some(p@) == name_view(parent) && node@ == v@ && *final(self) == *old(self),
            },
    {
        if !self.is_compound {
            return Err(HierarchyError::NotCompound);
        }
        let ghost before = *self;
        match parent {
            None => {
                self.set_node(v.clone(), None);
                let root = String::from_str(GRAPH_NODE);
                proof {
                    reveal_strlit("\x00");
                    assert(root@ =~= sentinel());
                }
                self.move_under(v, &root);
                proof {
                    let after = *self;
                    let first = before@.ensure_node(v@, after@.node[v@].label);
                    lemma_legal_not_sentinel(v@);
                    first.lemma_reparent_shape_of(v@, sentinel());
                }
                Ok(self)
            },
            Some(p) => {
                if self.stands_on_chain(&p, v) {
                    return Err(HierarchyError::WouldCreateCycle { parent: p, node: v.clone() });
                }
                self.set_node(p.clone(), None);
                let ghost first = *self;
                self.set_node(v.clone(), None);
                let ghost second = *self;
                proof {
                    lemma_push_contains(before@.nodes, p@);
                    lemma_push_contains(first@.nodes, v@);
                    if !before@.has_node(p@) {
                        before@.lemma_add_node_chains(p@, first@.node[p@].label, p@, v@);
                    }
                    if !first@.has_node(v@) {
                        first@.lemma_add_node_chains(v@, second@.node[v@].label, p@, v@);
                    }
                    assert(before@.ancestor(p@, 0) == p@);
                    assert(p@ != v@);
                    assert(first@ == before@.ensure_node(p@, first@.node[p@].label));
                    assert(second@ == first@.ensure_node(v@, second@.node[v@].label));
                    assert(second@.node[p@].label == first@.node[p@].label);
                }
                self.move_under(v, &p);
                proof {
                    second@.lemma_reparent_shape_of(v@, p@);
                }
                Ok(self)
            },
        }
    }

    /// Whether `v` is `p` or stands above it.
    fn stands_on_chain(&self, p: &String, v: &String) -> (r: bool)
        requires
            self.wf(),
            legal_id(v@),
        ensures
            r == self@.on_chain(p@, v@),
    {
        let ghost rank = choose|rank: Map<Seq<char>, nat>| self@.ranked(rank);
        let mut cur = p.clone();
        let ghost mut i: nat = 0;
        proof {
            assert(self@.ancestor(p@, 0) == p@);
            lemma_legal_not_sentinel(v@);
        }
        loop
            invariant
                self.wf(),
                self@.ranked(rank),
                v@ != sentinel(),
                cur@ == self@.ancestor(p@, i),
                forall|j: nat| j < i ==> self@.ancestor(p@, j) != v@,
            decreases
                    if self@.has_node(cur@) {
                        rank[cur@] + 1
                    } else {
                        0
                    },
        {
            if cur == *v {
                return true;
            }
            proof {
                self@.lemma_ancestor_step(p@, i);
            }
            let next = match self.nodes.get(&cur) {
                Some(entry) => {
                    proof {
                        self.lemma_entry_wf(cur@);
                    }
                    entry.parent.clone()
                },
                None => {
                    proof {
                        assert forall|n: nat| self@.ancestor(p@, n) != v@ by {
                            if n > i {
                                self@.lemma_chain_ends(p@, i + 1, n);
                            }
                        }
                    }
                    return false;
                },
            };
            if is_root(&next) {
                proof {
                    assert forall|n: nat| self@.ancestor(p@, n) != v@ by {
                        if n > i {
                            self@.lemma_chain_ends(p@, i + 1, n);
                        }
                    }
                }
                return false;
            }
            proof {
                assert(self@.place_ok(cur@));
                i = i + 1;
            }
            cur = next;
        }
    }

    /// The parent of `v`, if `v` is a node with a parent in a compound
    /// graph.
    pub fn parent(&self, v: &String) -> (r: Option<&String>)
        requires
            self.wf(),
        ensures
            r.is_some() == self@.parent_link(v@).is_some(),
            r.is_some() ==> Some(r.unwrap()@) == self@.parent_link(v@),
    {
        if self.is_compound {
            if let Some(entry) = self.nodes.get(v) {
                proof {
                    self.lemma_entry_wf(v@);
                }
                if !is_root(&entry.parent) {
                    return Some(&entry.parent);
                }
            }
        }
        None
    }

    /// The direct children of `v`, in the order in which they were
    /// attached. In a compound graph the sentinel `GRAPH_NODE` stands for
    /// the top level; in any other graph its children are all the nodes.
    pub fn children(&self, v: &String) -> (r: Vec<String>)
        requires
            self.wf(),
        ensures
            r.deep_view() == self@.children_list(v@),
    {
        if self.is_compound {
            if is_root(v) {
                self.root_children.keys()
            } else {
                match self.nodes.get(v) {
                    Some(entry) => {
                        proof {
                            self.lemma_entry_wf(v@);
                        }
                        entry.children.keys()
                    },
                    None => {
                        let r: Vec<String> = Vec::new();
                        proof {
                            assert(r.deep_view() =~= Seq::<Seq<char>>::empty());
                        }
                        r
                    },
                }
            }
        } else if is_root(v) {
            self.nodes.keys()
        } else {
            let r: Vec<String> = Vec::new();
            proof {
                assert(r.deep_view() =~= Seq::<Seq<char>>::empty());
            }
            r
        }
    }

    /// Removes the edges that arrive at the node `v` (`incoming`) or leave
    /// it, in the order of the node's list.
    fn drop_edges_of(&mut self, v: &String, incoming: bool)
        requires
            old(self).wf(),
            old(self)@.has_node(v@),
        ensures
            final(self).wf(),
            final(self)@.has_node(v@),
            final(self)@ == old(self)@.remove_edges(
                if incoming {
                    old(self)@.node[v@].ins
                } else {
                    old(self)@.node[v@].outs
                },
            ),
            incoming ==> final(self)@.node[v@].ins.len() == 0,
            !incoming ==> final(self)@.node[v@].outs.len() == 0,
            !incoming && old(self)@.node[v@].ins.len() == 0 ==> final(self)@.node[v@].ins.len()
                == 0,
            final(self)@.node[v@].children == old(self)@.node[v@].children,
            final(self).node_default() == old(self).node_default(),
            final(self).edge_default() == old(self).edge_default(),
            final(self).graph_label() == old(self).graph_label(),
    {
        let ghost before = *self;
        proof {
            self.lemma_entry_wf(v@);
            self.nodes.lemma_pos(v@);
        }
        let i = self.nodes.position(v).unwrap();
        let keys = if incoming {
            self.nodes.value_at(i).ins.keys()
        } else {
            self.nodes.value_at(i).outs.keys()
        };
        let ghost list = keys.deep_view();
        proof {
            assert(before@.node_edges_ok(v@));
            assert(list.skip(0) =~= list);
            assert(list.take(0) =~= Seq::<Seq<char>>::empty());
        }
        let mut j: usize = 0;
        while j < keys.len()
            invariant
                0 <= j <= keys.len(),
                list == keys.deep_view(),
                list.no_duplicates(),
                self.wf(),
                self@.has_node(v@),
                self@ == before@.remove_edges(list.take(j as int)),
                incoming ==> self@.node[v@].ins == list.skip(j as int),
                !incoming ==> self@.node[v@].outs == list.skip(j as int),
                !incoming && before@.node[v@].ins.len() == 0 ==> self@.node[v@].ins.len() == 0,
                self@.node[v@].children == before@.node[v@].children,
                self.node_default() == before.node_default(),
                self.edge_default() == before.edge_default(),
                self.graph_label() == before.graph_label(),
            decreases keys.len() - j,
        {
            let ghost now = *self;
            let ghost k = list[j as int];
            proof {
                assert(keys@[j as int]@ == k);
                assert(list.take(j as int + 1).drop_last() =~= list.take(j as int));
                lemma_without_first(list, j as int);
                assert(list.skip(j as int)[0] == k);
                assert(now@.node_edges_ok(v@));
                assert(now@.has_edge(k));
                assert(now@.edge_ok(k));
                let rec = now@.edge[k].rec;
                assert(now@.node_edges_ok(rec.w));
                assert(now@.node_edges_ok(rec.v));
                now@.lemma_unlink_fields(k, v@);
            }
            self.unlink_edge(&keys[j]);
            j += 1;
        }
        proof {
            assert(list.take(list.len() as int) =~= list);
        }
    }

    /// Moves the children of the node `v` to the top level, in the order
    /// of its child list.
    fn release_children(&mut self, v: &String)
        requires
            old(self).wf(),
            old(self)@.has_node(v@),
        ensures
            final(self).wf(),
            final(self)@.has_node(v@),
            final(self)@ == old(self)@.release(old(self)@.node[v@].children),
            final(self)@.node[v@].children.len() == 0,
            final(self)@.node[v@].ins == old(self)@.node[v@].ins,
            final(self)@.node[v@].outs == old(self)@.node[v@].outs,
            final(self).node_default() == old(self).node_default(),
            final(self).edge_default() == old(self).edge_default(),
            final(self).graph_label() == old(self).graph_label(),
    {
        let ghost before = *self;
        proof {
            self.lemma_entry_wf(v@);
            self.nodes.lemma_pos(v@);
        }
        let i = self.nodes.position(v).unwrap();
        let kids = self.nodes.value_at(i).children.keys();
        let root = String::from_str(GRAPH_NODE);
        let ghost list = kids.deep_view();
        proof {
            reveal_strlit("\x00");
            assert(root@ =~= sentinel());
            assert(before@.place_ok(v@));
            assert(list.skip(0) =~= list);
            assert(list.take(0) =~= Seq::<Seq<char>>::empty());
            lemma_legal_not_sentinel(v@);
        }
        let mut j: usize = 0;
        while j < kids.len()
            invariant
                0 <= j <= kids.len(),
                list == kids.deep_view(),
                list.no_duplicates(),
                root@ == sentinel(),
                v@ != sentinel(),
                self.wf(),
                self@.has_node(v@),
                self@ == before@.release(list.take(j as int)),
                self@.node[v@].children == list.skip(j as int),
                self@.node[v@].ins == before@.node[v@].ins,
                self@.node[v@].outs == before@.node[v@].outs,
                self.node_default() == before.node_default(),
                self.edge_default() == before.edge_default(),
                self.graph_label() == before.graph_label(),
            decreases kids.len() - j,
        {
            let ghost now = *self;
            let ghost c = list[j as int];
            proof {
                assert(kids@[j as int]@ == c);
                assert(list.take(j as int + 1).drop_last() =~= list.take(j as int));
                lemma_without_first(list, j as int);
                assert(list.skip(j as int)[0] == c);
                assert(now@.place_ok(v@));
                assert(now@.node[v@].children.contains(c));
                lemma_legal_not_sentinel(c);
                now@.lemma_reparent_shape(c, sentinel());
                assert(now@.children_of(v@) == now@.node[v@].children);
            }
            self.move_under(&kids[j], &root);
            proof {
                assert(self@.children_of(v@) == now@.moved_list(v@, c, v@, sentinel()));
            }
            j += 1;
        }
        proof {
            assert(list.take(list.len() as int) =~= list);
        }
    }

    /// Removes the node `v`: first the edges that arrive at it, then those
    /// that leave it; its children move to the top level; then the node
    /// goes. Nothing happens where `v` is no node.
    pub fn remove_node(&mut self, v: &String) -> (r: &mut Self)
        requires
            old(self).wf(),
        ensures
            *final(self) == *final(r),
            r.wf(),
            r@ == old(self)@.remove_node(v@),
            r@.nodes == seq_without(old(self)@.nodes, v@),
            forall|k: Seq<char>| #[trigger]
                r@.has_edge(k) <==> old(self)@.has_edge(k) && old(self)@.edge[k].rec.v != v@
                    && old(self)@.edge[k].rec.w != v@,
            forall|k: Seq<char>| #[trigger] r@.has_edge(k) ==> r@.edge[k] == old(self)@.edge[k],
            !r@.has_node(v@),
            r.node_default() == old(self).node_default(),
            r.edge_default() == old(self).edge_default(),
            r.graph_label() == old(self).graph_label(),
    {
        if !self.nodes.contains_key(v) {
            proof {
                let m = self@;
                assert forall|k: Seq<char>| #[trigger] m.has_edge(k) implies m.edge[k].rec.v != v@
                    && m.edge[k].rec.w != v@ by {
                    assert(m.edge_ok(k));
                }
            }
            return self;
        }
        let ghost before = *self;
        proof {
            law_remove_node(before@, v@);
        }
        self.drop_edges_of(v, true);
        self.drop_edges_of(v, false);
        self.release_children(v);
        let ghost ready = *self;
        proof {
            self.nodes.lemma_pos(v@);
            self.lemma_entry_wf(v@);
            ready@.lemma_drop_ok(v@);
            assert(ready@.place_ok(v@));
            lemma_legal_not_sentinel(v@);
            lemma_without(ready@.nodes, v@);
        }
        let i = self.nodes.position(v).unwrap();
        let o = self.nodes.value_at(i).parent.clone();
        proof {
            ready@.lemma_listed_once(o@, v@);
        }
        if is_root(&o) {
            self.root_children.remove(v);
            proof {
                assert(self@.node =~= ready@.node);
            }
        } else {
            proof {
                self.nodes.lemma_pos(o@);
            }
            let io = self.nodes.position(&o).unwrap();
            let entry = self.nodes.value_at_mut(io);
            let ghost old_o = *entry;
            entry.children.remove(v);
            proof {
                assert(entry.model() == (NodeModel {
                    children: seq_without(old_o.model().children, v@),
                    ..old_o.model()
                }));
                assert(self@.node =~= ready@.node.insert(
                    o@,
                    NodeModel {
                        children: seq_without(ready@.node[o@].children, v@),
                        ..ready@.node[o@]
                    },
                ));
            }
        }
        let ghost loose = *self;
        proof {
            assert(loose@ == ready@.detach(v@));
        }
        self.nodes.remove(v);
        self.node_count = self.nodes.len();
        proof {
            assert(self@.node =~= loose@.node.remove(v@));
            assert(self@ == loose@.drop_node(v@));
            assert forall|i: int| 0 <= i < self.nodes.val_seq().len() implies (
            #[trigger] self.nodes.val_seq()[i]).wf() by {
                let p = loose.nodes.pos(v@);
                let a = if i < p { i } else { i + 1 };
                assert(self.nodes.val_seq()[i] == loose.nodes.val_seq()[a]);
            }
        }
        self
    }

    /// The edges of one of a node's lists, filtered by their far end.
    fn listed_edges(list: &OrderedMap<Edge>, incoming: bool, peer: &Option<String>) -> (r: Vec<Edge>)
        requires
            list.wf(),
        ensures
            edge_views(r@) == select(list.key_seq(), records(*list), incoming, name_view(*peer)),
    {
        let mut out: Vec<Edge> = Vec::new();
        let n = list.len();
        let ghost keys = list.key_seq();
        let ghost recs = records(*list);
        let ghost want = name_view(*peer);
        proof {
            lemma_select_ends(keys, recs, incoming, want);
            assert(edge_views(out@) =~= select(keys.take(0), recs, incoming, want));
        }
        let mut i: usize = 0;
        while i < n
            invariant
                list.wf(),
                n == list.key_seq().len(),
                keys == list.key_seq(),
                recs == records(*list),
                want == name_view(*peer),
                0 <= i <= n,
                edge_views(out@) == select(keys.take(i as int), recs, incoming, want),
            decreases n - i,
        {
            proof {
                list.lemma_key_at(i as int);
                lemma_select_step(keys, recs, incoming, want, i as int);
            }
            let e = list.value_at(i);
            let ghost prev = out@;
            let wanted = match peer {
                None => true,
                Some(u) => if incoming {
                    e.v == *u
                } else {
                    e.w == *u
                },
            };
            if wanted {
                out.push(e.clone());
                proof {
                    assert(edge_views(out@) =~= edge_views(prev).push(e@));
                }
            }
            i += 1;
        }
        proof {
            lemma_select_ends(keys, recs, incoming, want);
        }
        out
    }

    /// The edges that arrive at `v`, oldest first; with `u`, only those
    /// that come from `u`. `None` where `v` is no node.
    pub fn in_edges(&self, v: &String, u: Option<String>) -> (r: Option<Vec<Edge>>)
        requires
            self.wf(),
        ensures
            r.is_some() == self@.has_node(v@),
            r.is_some() ==> edge_views(r.unwrap()@) == select(
                self@.node[v@].ins,
                self@.node[v@].in_rec,
                true,
                name_view(u),
            ),
    {
        match self.nodes.get(v) {
            Some(entry) => {
                proof {
                    self.lemma_entry_wf(v@);
                }
                Some(Self::listed_edges(&entry.ins, true, &u))
            },
            None => None,
        }
    }

    /// The edges that leave `v`, oldest first; with `w`, only those that
    /// lead to `w`. `None` where `v` is no node.
    pub fn out_edges(&self, v: &String, w: Option<String>) -> (r: Option<Vec<Edge>>)
        requires
            self.wf(),
        ensures
            r.is_some() == self@.has_node(v@),
            r.is_some() ==> edge_views(r.unwrap()@) == select(
                self@.node[v@].outs,
                self@.node[v@].out_rec,
                false,
                name_view(w),
            ),
    {
        match self.nodes.get(v) {
            Some(entry) => {
                proof {
                    self.lemma_entry_wf(v@);
                }
                Some(Self::listed_edges(&entry.outs, false, &w))
            },
            None => None,
        }
    }

    /// The edges that arrive at `v` followed by those that leave it; with
    /// `w`, only those between `v` and `w`. An edge from `v` to itself is
    /// listed twice. `None` where `v` is no node.
    pub fn node_edges(&self, v: &String, w: Option<String>) -> (r: Option<Vec<Edge>>)
        requires
            self.wf(),
        ensures
            r.is_some() == self@.has_node(v@),
            r.is_some() ==> edge_views(r.unwrap()@) == select(
                self@.node[v@].ins,
                self@.node[v@].in_rec,
                true,
                name_view(w),
            ) + select(self@.node[v@].outs, self@.node[v@].out_rec, false, name_view(w)),
    {
        match self.nodes.get(v) {
            Some(entry) => {
                proof {
                    self.lemma_entry_wf(v@);
                }
                let mut all = Self::listed_edges(&entry.ins, true, &w);
                let mut leaving = Self::listed_edges(&entry.outs, false, &w);
                let ghost first = all@;
                let ghost second = leaving@;
                all.append(&mut leaving);
                proof {
                    assert(edge_views(all@) =~= edge_views(first) + edge_views(second));
                }
                Some(all)
            },
            None => None,
        }
    }

    /// The nodes that pass: those without incoming edges (`incoming`) or
    /// those without outgoing edges.
    fn bare_nodes(&self, incoming: bool) -> (r: Vec<String>)
        requires
            self.wf(),
        ensures
            r.deep_view() == if incoming {
                self@.sources()
            } else {
                self@.sinks()
            },
    {
        let ids = self.nodes.keys();
        let mut out: Vec<String> = Vec::new();
        let ghost ok = if incoming {
            |v: Seq<char>| self@.node[v].ins.len() == 0
        } else {
            |v: Seq<char>| self@.node[v].outs.len() == 0
        };
        proof {
            lemma_keep_ends(self@.nodes, ok);
            assert(out.deep_view() =~= keep(self@.nodes.take(0), ok));
        }
        let mut i: usize = 0;
        while i < ids.len()
            invariant
                self.wf(),
                ids.deep_view() == self@.nodes,
                0 <= i <= ids.len(),
                incoming ==> ok == |v: Seq<char>| self@.node[v].ins.len() == 0,
                !incoming ==> ok == |v: Seq<char>| self@.node[v].outs.len() == 0,
                out.deep_view() == keep(self@.nodes.take(i as int), ok),
            decreases ids.len() - i,
        {
            proof {
                assert(ids.deep_view()[i as int] == ids@[i as int]@);
                assert(ids.deep_view().len() == ids@.len());
                self.nodes.lemma_key_at(i as int);
                self.lemma_entry_wf(self@.nodes[i as int]);
                lemma_keep_step(self@.nodes, ok, i as int);
            }
            let entry = self.nodes.value_at(i);
            let bare = if incoming {
                entry.ins.len() == 0
            } else {
                entry.outs.len() == 0
            };
            let ghost prev = out.deep_view();
            if bare {
                out.push(ids[i].clone());
                proof {
                    assert(out.deep_view() =~= prev.push(ids@[i as int]@));
                }
            }
            i += 1;
        }
        proof {
            lemma_keep_ends(self@.nodes, ok);
            assert(ids.deep_view().len() == ids@.len());
        }
        out
    }

    /// The nodes without incoming edges, in the order of their creation.
    pub fn sources(&self) -> (r: Vec<String>)
        requires
            self.wf(),
        ensures
            r.deep_view() == self@.sources(),
    {
        self.bare_nodes(true)
    }

    /// The nodes without outgoing edges, in the order of their creation.
    pub fn sinks(&self) -> (r: Vec<String>)
        requires
            self.wf(),
        ensures
            r.deep_view() == self@.sinks(),
    {
        self.bare_nodes(false)
    }

    /// Gives the graph a new label.
    pub fn set_graph(&mut self, label: GL) -> (r: &mut Self)
        ensures
            *final(self) == *final(r),
            r.graph_label() == label,
            r@ == old(self)@,
            r.stored_ok() == old(self).stored_ok(),
            r.node_default() == old(self).node_default(),
            r.edge_default() == old(self).edge_default(),
    {
        self.label = label;
        self
    }

    /// The graph's label.
    pub fn graph(&self) -> (r: &GL)
        ensures
            *r == self.graph_label(),
    {
        &self.label
    }

    /// Sets the rule for the labels of nodes that are created without one.
    pub fn set_default_node_label(&mut self, new_default: DefaultNodeLabel<N>) -> (r: &mut Self)
        ensures
            *final(self) == *final(r),
            r.node_default() == new_default,
            r@ == old(self)@,
            r.stored_ok() == old(self).stored_ok(),
            r.edge_default() == old(self).edge_default(),
            r.graph_label() == old(self).graph_label(),
    {
        self.default_node_label_fn = new_default;
        self
    }

    /// Sets the rule for the labels of edges that are created without one.
    pub fn set_default_edge_label(&mut self, new_default: DefaultEdgeLabel<E>) -> (r: &mut Self)
        ensures
            *final(self) == *final(r),
            r.edge_default() == new_default,
            r@ == old(self)@,
            r.stored_ok() == old(self).stored_ok(),
            r.node_default() == old(self).node_default(),
            r.graph_label() == old(self).graph_label(),
    {
        self.default_edge_label_fn = new_default;
        self
    }

    /// What holds of the graph `after` once the node `v` was set in the
    /// graph `before`.
    pub open spec fn node_was_set(before: Self, after: Self, v: Seq<char>, value: Option<N>) -> bool {
        &&& after@.has_node(v)
        &&& after@ == before@.set_node(v, value, after@.node[v].label)
        &&& !before@.has_node(v) && value.is_none() ==> before.node_default().assigns(
            v,
            after@.node[v].label,
        )
        &&& after.node_default() == before.node_default()
        &&& after.edge_default() == before.edge_default()
        &&& after.graph_label() == before.graph_label()
    }

    /// Whether `given` is `value` or a copy of it.
    pub open spec fn copy_of_node_label(value: Option<N>, given: Option<N>) -> bool {
        match value {
            Some(x) => given.is_some() && cloned(x, given.unwrap()),
            None => given.is_none(),
        }
    }

    /// Whether `given` is `value` or a copy of it.
    pub open spec fn copy_of_edge_label(value: Option<E>, given: Option<E>) -> bool {
        match value {
            Some(x) => given.is_some() && cloned(x, given.unwrap()),
            None => given.is_none(),
        }
    }

    /// Whether `trail` leads from one graph to the next by setting the nodes
    /// `ids` one after the other, each with a copy of `value`.
    pub open spec fn nodes_were_set(trail: Seq<Self>, ids: Seq<Seq<char>>, value: Option<N>) -> bool {
        &&& trail.len() == ids.len() + 1
        &&& forall|t: int| 0 <= t < ids.len() ==> #[trigger] Self::node_step(trail, ids, value, t)
    }

    /// Whether step `t` of `trail` sets the node `ids[t]` with a copy of
    /// `value`.
    pub open spec fn node_step(trail: Seq<Self>, ids: Seq<Seq<char>>, value: Option<N>, t: int) -> bool {
        exists|given: Option<N>|
            Self::copy_of_node_label(value, given) && #[trigger] Self::node_was_set(
                trail[t],
                trail[t + 1],
                ids[t],
                given,
            )
    }

    /// Whether step `t` of `trail` sets the edge from `ids[t]` to the node
    /// after it with a copy of `value`.
    pub open spec fn edge_step(trail: Seq<Self>, ids: Seq<Seq<char>>, value: Option<E>, t: int) -> bool {
        exists|given: Option<E>|
            Self::copy_of_edge_label(value, given) && #[trigger] Self::edge_was_set(
                trail[t],
                trail[t + 1],
                ids[t],
                ids[t + 1],
                None,
                given,
            )
    }

    /// Whether `trail` leads from one graph to the next by setting the
    /// edges between each of `ids` and the one after it, each with a copy
    /// of `value`.
    pub open spec fn path_was_set(trail: Seq<Self>, ids: Seq<Seq<char>>, value: Option<E>) -> bool {
        &&& trail.len() == if ids.len() == 0 {
            1
        } else {
            ids.len() as int
        }
        &&& forall|t: int|
            0 <= t < ids.len() - 1 ==> #[trigger] Self::edge_step(trail, ids, value, t)
    }

    /// Sets each of the nodes `node_ids`, in their order, as `set_node`
    /// does, each with a copy of `value`.
    pub fn set_nodes(&mut self, node_ids: Vec<String>, value: Option<N>) -> (r: &mut Self)
        requires
            old(self).wf(),
            forall|i: int| 0 <= i < node_ids.len() ==> legal_id(#[trigger] node_ids.deep_view()[i]),
        ensures
            *final(self) == *final(r),
            r.wf(),
            exists|trail: Seq<Self>|
                trail[0] == *old(self) && trail.last() == *r && #[trigger] Self::nodes_were_set(
                    trail,
                    node_ids.deep_view(),
                    value,
                ),
    {
        let ghost ids = node_ids.deep_view();
        let ghost mut trail: Seq<Self> = seq![*self];
        let mut i: usize = 0;
        while i < node_ids.len()
            invariant
                0 <= i <= node_ids.len(),
                ids == node_ids.deep_view(),
                forall|j: int| 0 <= j < ids.len() ==> legal_id(#[trigger] ids[j]),
                self.wf(),
                trail.len() == i + 1,
                trail[0] == *old(self),
                trail.last() == *self,
                Self::nodes_were_set(trail, ids.take(i as int), value),
            decreases node_ids.len() - i,
        {
            let given = match &value {
                Some(x) => Some(x.clone()),
                None => None,
            };
            let ghost now = *self;
            let ghost was = trail;
            proof {
                assert(ids[i as int] == node_ids@[i as int]@);
            }
            self.set_node(node_ids[i].clone(), given);
            proof {
                trail = trail.push(*self);
                assert(Self::node_was_set(now, *self, ids[i as int], given));
                assert forall|t: int| 0 <= t < i + 1 implies #[trigger] Self::node_step(
                    trail,
                    ids.take(i as int + 1),
                    value,
                    t,
                ) by {
                    if t < i {
                        assert(Self::node_step(was, ids.take(i as int), value, t));
                        assert(was[t] == trail[t] && was[t + 1] == trail[t + 1]);
                        assert(ids.take(i as int)[t] == ids.take(i as int + 1)[t]);
                        let g0 = choose|given: Option<N>|
                            Self::copy_of_node_label(value, given) && #[trigger] Self::node_was_set(
                                was[t],
                                was[t + 1],
                                ids.take(i as int)[t],
                                given,
                            );
                        assert(Self::node_was_set(
                            trail[t],
                            trail[t + 1],
                            ids.take(i as int + 1)[t],
                            g0,
                        ));
                    } else {
                        assert(Self::node_was_set(
                            trail[t],
                            trail[t + 1],
                            ids.take(i as int + 1)[t],
                            given,
                        ));
                    }
                }
            }
            i += 1;
        }
        proof {
            assert(ids.take(ids.len() as int) =~= ids);
        }
        self
    }

    /// Sets an edge without a name from each of the nodes `vs` to the one
    /// after it, as `set_edge` does, each with a copy of `value`.
    pub fn set_path(&mut self, vs: &Vec<String>, value: Option<E>)
        requires
            old(self).wf(),
            forall|i: int| 0 <= i < vs.len() ==> legal_id(#[trigger] vs.deep_view()[i]),
        ensures
            final(self).wf(),
            exists|trail: Seq<Self>|
                trail[0] == *old(self) && trail.last() == *final(self)
                    && #[trigger] Self::path_was_set(trail, vs.deep_view(), value),
    {
        let ghost ids = vs.deep_view();
        let ghost mut trail: Seq<Self> = seq![*self];
        if vs.len() == 0 {
            proof {
                assert(Self::path_was_set(trail, ids, value));
            }
            return ;
        }
        proof {
            assert(Self::path_was_set(trail, ids.take(1), value));
        }
        let mut i: usize = 1;
        while i < vs.len()
            invariant
                1 <= i <= vs.len(),
                ids == vs.deep_view(),
                forall|j: int| 0 <= j < ids.len() ==> legal_id(#[trigger] ids[j]),
                self.wf(),
                trail.len() == i,
                trail[0] == *old(self),
                trail.last() == *self,
                Self::path_was_set(trail, ids.take(i as int), value),
            decreases vs.len() - i,
        {
            let given = match &value {
                Some(x) => Some(x.clone()),
                None => None,
            };
            let ghost now = *self;
            let ghost was = trail;
            proof {
                assert(ids[i as int] == vs@[i as int]@);
                assert(ids[i - 1] == vs@[i - 1]@);
            }
            let done = self.set_edge(&vs[i - 1], &vs[i], given, None);
            proof {
                assert(done.is_ok());
                trail = trail.push(*self);
                assert(Self::edge_was_set(now, *self, ids[i - 1], ids[i as int], None, given));
                assert forall|t: int| 0 <= t < i implies #[trigger] Self::edge_step(
                    trail,
                    ids.take(i as int + 1),
                    value,
                    t,
                ) by {
                    if t < i - 1 {
                        assert(Self::edge_step(was, ids.take(i as int), value, t));
                        assert(was[t] == trail[t] && was[t + 1] == trail[t + 1]);
                        assert(ids.take(i as int)[t] == ids.take(i as int + 1)[t]);
                        assert(ids.take(i as int)[t + 1] == ids.take(i as int + 1)[t + 1]);
                        let g0 = choose|given: Option<E>|
                            Self::copy_of_edge_label(value, given) && #[trigger] Self::edge_was_set(
                                was[t],
                                was[t + 1],
                                ids.take(i as int)[t],
                                ids.take(i as int)[t + 1],
                                None,
                                given,
                            );
                        assert(Self::edge_was_set(
                            trail[t],
                            trail[t + 1],
                            ids.take(i as int + 1)[t],
                            ids.take(i as int + 1)[t + 1],
                            None,
                            g0,
                        ));
                    } else {
                        assert(Self::edge_was_set(
                            trail[t],
                            trail[t + 1],
                            ids.take(i as int + 1)[t],
                            ids.take(i as int + 1)[t + 1],
                            None,
                            given,
                        ));
                    }
                }
            }
            i += 1;
        }
        proof {
            assert(ids.take(ids.len() as int) =~= ids);
        }
    }

    /// Mutable access to the graph's label.
    pub fn graph_mut(&mut self) -> (r: &mut GL)
        ensures
            *r == old(self).graph_label(),
            final(self).graph_label() == *final(r),
            final(self)@ == old(self)@,
            final(self).stored_ok() == old(self).stored_ok(),
            final(self).node_default() == old(self).node_default(),
            final(self).edge_default() == old(self).edge_default(),
    {
        &mut self.label
    }

    /// What holds when the label of node `v` was lent out as `lent` and
    /// came back as `back`: the graph is as before but for that label.
    pub open spec fn node_label_lent(before: Self, after: Self, v: Seq<char>, lent: N, back: N) -> bool {
        &&& lent == before@.node[v].label
        &&& after.wf()
        &&& after@ == before@.relabel_node(v, back)
        &&& after.node_default() == before.node_default()
        &&& after.edge_default() == before.edge_default()
        &&& after.graph_label() == before.graph_label()
    }

    /// A graph that differs from `before` only in the label of node `v` is
    /// `before` with that node relabelled, and well formed.
    proof fn lemma_node_label_lent(before: Self, v: Seq<char>)
        requires
            before.wf(),
            before@.has_node(v),
        ensures
            forall|after: Self, back: N|
                #![trigger Self::node_label_lent(before, after, v, before@.node[v].label, back)]
                Self::same_but_nodes(before, after) && after.nodes.wf() && after.nodes.key_seq()
                    == before.nodes.key_seq() && after.nodes.val_seq()
                    == before.nodes.val_seq().update(
                    before.nodes.pos(v),
                    NodeEntry { label: back, ..before.nodes.val_seq()[before.nodes.pos(v)] },
                ) && after.nodes.as_map() == before.nodes.as_map().insert(
                    v,
                    NodeEntry { label: back, ..before.nodes.val_seq()[before.nodes.pos(v)] },
                ) ==> Self::node_label_lent(before, after, v, before@.node[v].label, back),
    {
        before.nodes.lemma_pos(v);
        assert forall|after: Self, back: N|
            #![trigger Self::node_label_lent(before, after, v, before@.node[v].label, back)]
            Self::same_but_nodes(before, after) && after.nodes.wf() && after.nodes.key_seq()
                == before.nodes.key_seq() && after.nodes.val_seq()
                == before.nodes.val_seq().update(
                before.nodes.pos(v),
                NodeEntry { label: back, ..before.nodes.val_seq()[before.nodes.pos(v)] },
            ) && after.nodes.as_map() == before.nodes.as_map().insert(
                v,
                NodeEntry { label: back, ..before.nodes.val_seq()[before.nodes.pos(v)] },
            ) implies Self::node_label_lent(before, after, v, before@.node[v].label, back) by {
            assert(after@.node =~= before@.node.insert(v, before@.node[v].with_label(back)));
            assert(after@ == before@.relabel_node(v, back));
            before@.lemma_relabel_node_ok(v, back);
        }
    }

    /// A graph that differs from `before` only in the label of edge `k` is
    /// `before` with that edge relabelled, and well formed.
    proof fn lemma_edge_label_lent(before: Self, k: Seq<char>)
        requires
            before.wf(),
            before@.has_edge(k),
        ensures
            forall|after: Self, lent: E, back: E|
                #![trigger Self::edge_label_lent(before, after, k, lent, back)]
                lent == before@.edge[k].label && Self::same_but_edges(before, after)
                    && after.edges.wf() && after.edges.key_seq()
                    == before.edges.key_seq() && after.edges.as_map()
                    == before.edges.as_map().insert(
                    k,
                    EdgeEntry { label: back, ..before.edges.val_seq()[before.edges.pos(k)] },
                ) ==> Self::edge_label_lent(before, after, k, lent, back),
    {
        before.edges.lemma_pos(k);
        assert forall|after: Self, lent: E, back: E|
            #![trigger Self::edge_label_lent(before, after, k, lent, back)]
            lent == before@.edge[k].label && Self::same_but_edges(before, after)
                && after.edges.wf() && after.edges.key_seq()
                == before.edges.key_seq() && after.edges.as_map() == before.edges.as_map().insert(
                k,
                EdgeEntry { label: back, ..before.edges.val_seq()[before.edges.pos(k)] },
            ) implies Self::edge_label_lent(before, after, k, lent, back) by {
            assert(after@.edge =~= before@.edge.insert(
                k,
                EdgeModel { rec: before@.edge[k].rec, label: back },
            ));
            assert(after@ == before@.relabel_edge(k, back));
            before@.lemma_relabel_edge_ok(k, back);
        }
    }

    /// Whether two graphs agree in all that they store but the nodes.
    closed spec fn same_but_nodes(before: Self, after: Self) -> bool {
        &&& after.is_directed == before.is_directed
        &&& after.is_multigraph == before.is_multigraph
        &&& after.is_compound == before.is_compound
        &&& after.label == before.label
        &&& after.default_node_label_fn == before.default_node_label_fn
        &&& after.default_edge_label_fn == before.default_edge_label_fn
        &&& after.edges == before.edges
        &&& after.root_children == before.root_children
        &&& after.node_count == before.node_count
        &&& after.edge_count == before.edge_count
    }

    /// Whether two graphs agree in all that they store but the edges.
    closed spec fn same_but_edges(before: Self, after: Self) -> bool {
        &&& after.is_directed == before.is_directed
        &&& after.is_multigraph == before.is_multigraph
        &&& after.is_compound == before.is_compound
        &&& after.label == before.label
        &&& after.default_node_label_fn == before.default_node_label_fn
        &&& after.default_edge_label_fn == before.default_edge_label_fn
        &&& after.nodes == before.nodes
        &&& after.root_children == before.root_children
        &&& after.node_count == before.node_count
        &&& after.edge_count == before.edge_count
    }

    /// Mutable access to the label of node `v`.
    pub fn node_mut(&mut self, v: &String) -> (r: Option<&mut N>)
        requires
            old(self).wf(),
        ensures
            r.is_some() == old(self)@.has_node(v@),
            match r {
                Some(label) => Self::node_label_lent(
                    *old(self),
                    *final(self),
                    v@,
                    *label,
                    *final(label),
                ),
                None => *final(self) == *old(self),
            },
    {
        let ghost before = *self;
        match self.nodes.position(v) {
            Some(i) => {
                proof {
                    self.nodes.lemma_pos(v@);
                    Self::lemma_node_label_lent(before, v@);
                }
                let entry = self.nodes.value_at_mut(i);
                Some(&mut entry.label)
            },
            None => None,
        }
    }

    /// Mutable access to the label of the edge between `v` and `w` with
    /// the given name.
    pub fn edge_mut(&mut self, v: &String, w: &String, name: Option<String>) -> (r: Option<&mut E>)
        requires
            old(self).wf(),
        ensures
            r.is_some() == old(self)@.has_edge(old(self)@.key(v@, w@, name_view(name))),
            match r {
                Some(label) => Self::edge_label_lent(
                    *old(self),
                    *final(self),
                    old(self)@.key(v@, w@, name_view(name)),
                    *label,
                    *final(label),
                ),
                None => *final(self) == *old(self),
            },
    {
        let e = edge_args_to_id(&self.is_directed, v, w, &name);
        self.edge_label_mut(&e)
    }

    /// Mutable access to the label of the edge that `edge` describes.
    pub fn edge_mut_with_obj(&mut self, edge: &Edge) -> (r: Option<&mut E>)
        requires
            old(self).wf(),
        ensures
            r.is_some() == old(self)@.has_edge(old(self)@.key(edge@.v, edge@.w, edge@.name)),
            match r {
                Some(label) => Self::edge_label_lent(
                    *old(self),
                    *final(self),
                    old(self)@.key(edge@.v, edge@.w, edge@.name),
                    *label,
                    *final(label),
                ),
                None => *final(self) == *old(self),
            },
    {
        let e = edge_obj_to_id(&self.is_directed, edge);
        self.edge_label_mut(&e)
    }

    /// What holds when the label of edge `k` was lent out as `lent` and
    /// came back as `back`: the graph is as before but for that label.
    pub open spec fn edge_label_lent(before: Self, after: Self, k: Seq<char>, lent: E, back: E) -> bool {
        &&& lent == before@.edge[k].label
        &&& after.wf()
        &&& after@ == before@.relabel_edge(k, back)
        &&& after.node_default() == before.node_default()
        &&& after.edge_default() == before.edge_default()
        &&& after.graph_label() == before.graph_label()
    }

    fn edge_label_mut(&mut self, key: &String) -> (r: Option<&mut E>)
        requires
            old(self).wf(),
        ensures
            r.is_some() == old(self)@.has_edge(key@),
            match r {
                Some(label) => Self::edge_label_lent(
                    *old(self),
                    *final(self),
                    key@,
                    *label,
                    *final(label),
                ),
                None => *final(self) == *old(self),
            },
    {
        let ghost before = *self;
        match self.edges.position(key) {
            Some(i) => {
                proof {
                    self.edges.lemma_pos(key@);
                    Self::lemma_edge_label_lent(before, key@);
                }
                let entry = self.edges.value_at_mut(i);
                Some(&mut entry.label)
            },
            None => None,
        }
    }

    /// The storage of every node is in order.
    proof fn lemma_entry_wf(&self, v: Seq<char>)
        requires
            self.wf(),
            self@.has_node(v),
        ensures
            self.nodes.as_map()[v].wf(),
            self.nodes.as_map()[v].model() == self@.node[v],
    {
        self.nodes.lemma_pos(v);
    }
}

impl<GL: Default, N: Default + Clone, E: Default + Clone> Default for Graph<GL, N, E> {
    /// An empty directed graph, neither multigraph nor compound.
    fn default() -> (g: Self)
        ensures
            g.wf(),
            g@ == GraphModel::<N, E>::empty(true, false, false),
    {
        Graph::new(None)
    }
}

/// Whether `s` is the sentinel that stands for the top level.
fn is_root(s: &String) -> (r: bool)
    ensures
        r == (s@ == sentinel()),
{
    let root = String::from_str(GRAPH_NODE);
    proof {
        reveal_strlit("\x00");
        assert(root@ =~= sentinel());
    }
    *s == root
}

/// One more edge leads to `k`: its count goes up by one, or starts at one.
/// The count was below `listed`, the number of edges that the node now
/// lists.
fn increment_or_init_entry(map: &mut OrderedMap<usize>, k: &String, listed: usize)
    requires
        old(map).wf(),
        old(map).contains(k@) ==> old(map).as_map()[k@] < listed,
    ensures
        final(map).wf(),
        (Neighbours { ids: final(map).key_seq(), count: final(map).as_map() }) == (Neighbours {
            ids: old(map).key_seq(),
            count: old(map).as_map(),
        }).more(k@),
{
    match map.position(k) {
        Some(i) => {
            proof {
                map.lemma_pos(k@);
            }
            let c = *map.value_at(i);
            map.insert(k.clone(), c + 1);
        },
        None => {
            map.insert(k.clone(), 1);
        },
    }
}

/// One edge fewer leads to `k`: its count goes down by one, and with the
/// last edge `k` leaves the map.
fn decrement_or_remove_entry(map: &mut OrderedMap<usize>, k: &String)
    requires
        old(map).wf(),
        old(map).contains(k@) ==> old(map).as_map()[k@] >= 1,
    ensures
        final(map).wf(),
        (Neighbours { ids: final(map).key_seq(), count: final(map).as_map() }) == (Neighbours {
            ids: old(map).key_seq(),
            count: old(map).as_map(),
        }).fewer(k@),
{
    match map.position(k) {
        Some(i) => {
            proof {
                map.lemma_pos(k@);
            }
            let c = *map.value_at(i);
            if c <= 1 {
                map.remove(k);
            } else {
                map.insert(k.clone(), c - 1);
            }
        },
        None => {},
    }
}

} // verus!
