//! Filtering: the part of a graph that lies on the nodes which pass a test.

use crate::edge::{clone_name, lemma_legal_not_sentinel, sentinel};
use crate::graph::{Graph, GraphOption};
use crate::model::GraphModel;
use vstd::prelude::*;

verus! {

/// Whether `filter`, asked about the node `id`, may answer `verdict`.
pub open spec fn decided<F: Fn(&String) -> bool>(filter: F, id: Seq<char>, verdict: bool) -> bool {
    exists|s: String| s@ == id && #[trigger] filter.ensures((&s,), verdict)
}

impl<GL: Default, N: Default + Clone, E: Default + Clone> Graph<GL, N, E> {
    /// The nearest of the nodes above `v` in this graph that `copy` has.
    fn find_parent(&self, v: &String, copy: &Self) -> (r: Option<String>)
        requires
            self.wf(),
            copy.wf(),
            self@.compound,
            self@.has_node(v@),
        ensures
            match r {
                Some(p) => p@ == self@.nearest(copy@.nodes, self@.parent_of(v@)) && p@
                    != sentinel() && copy@.has_node(p@),
                None => self@.nearest(copy@.nodes, self@.parent_of(v@)) == sentinel(),
            },
    {
        let ghost goal = self@.nearest(copy@.nodes, self@.parent_of(v@));
        let ghost rank = choose|rank: Map<Seq<char>, nat>| self@.ranked(rank);
        let mut cur: Option<&String> = self.parent(v);
        proof {
            assert(self@.place_ok(v@));
        }
        loop
            invariant
                self.wf(),
                copy.wf(),
                self@.compound,
                self@.ranked(rank),
                goal == self@.nearest(copy@.nodes, self@.parent_of(v@)),
                match cur {
                    Some(p) => self@.has_node(p@) && p@ != sentinel() && self@.nearest(
                        copy@.nodes,
                        p@,
                    ) == goal,
                    None => goal == sentinel(),
                },
            decreases
                    match cur {
                        Some(p) => rank[p@] + 1,
                        None => 0,
                    },
        {
            match cur {
                None => {
                    return None;
                },
                Some(p) => {
                    if copy.has_node(p) {
                        return Some(p.clone());
                    }
                    proof {
                        assert(self@.place_ok(p@));
                        if self@.node[p@].parent != sentinel() {
                            lemma_legal_not_sentinel(self@.node[p@].parent);
                        }
                    }
                    cur = self.parent(p);
                },
            }
        }
    }

    /// A new graph of the same kind with copies of the nodes for which
    /// `filter` holds, in their order, and of the edges between them, in
    /// theirs, each with a copy of its label. In a compound graph each node
    /// of the new graph is put under the nearest of its ancestors in this
    /// graph that passed the filter, or at the top level where none did.
    pub fn filter_nodes<F>(&self, filter: F) -> (r: Self) where F: Fn(&String) -> bool
        requires
            self.wf(),
            forall|s: &String| #[trigger] filter.requires((s,)),
        ensures
            r.wf(),
            exists|keep: Seq<bool>, node_labels: Seq<N>, edge_labels: Seq<E>|
                {
                    &&& #[trigger] self@.filtered(keep, node_labels, edge_labels) == r@
                    &&& keep.len() == self@.nodes.len()
                    &&& node_labels.len() == self@.nodes.len()
                    &&& edge_labels.len() == self@.edges.len()
                    &&& forall|i: int|
                        0 <= i < keep.len() ==> decided(filter, self@.nodes[i], #[trigger] keep[i])
                    &&& forall|i: int|
                        0 <= i < keep.len() && keep[i] ==> cloned(
                            self@.node[self@.nodes[i]].label,
                            #[trigger] node_labels[i],
                        )
                    &&& forall|i: int|
                        0 <= i < edge_labels.len() ==> cloned(
                            self@.edge[self@.edges[i]].label,
                            #[trigger] edge_labels[i],
                        )
                },
    {
        let mut copy: Self = Graph::new(
            Some(
                GraphOption {
                    directed: Some(self.is_directed()),
                    multigraph: Some(self.is_multigraph()),
                    compound: Some(self.is_compound()),
                },
            ),
        );
        let ghost start = copy@;
        let ghost mut keep: Seq<bool> = Seq::empty();
        let ghost mut node_labels: Seq<N> = Seq::empty();
        let ids = self.nodes();
        let mut i: usize = 0;
        proof {
            assert(self@.nodes.take(0) =~= Seq::<Seq<char>>::empty());
        }
        while i < ids.len()
            invariant
                0 <= i <= ids.len(),
                self.wf(),
                copy.wf(),
                ids.deep_view() == self@.nodes,
                forall|s: &String| #[trigger] filter.requires((s,)),
                start == GraphModel::<N, E>::empty(
                    self@.directed,
                    self@.multigraph,
                    self@.compound,
                ),
                keep.len() == i,
                node_labels.len() == i,
                copy@.directed == self@.directed,
                copy@.multigraph == self@.multigraph,
                copy@.compound == self@.compound,
                forall|x: Seq<char>| #[trigger] copy@.nodes.contains(x) ==> self@.nodes.contains(x),
                copy@ == start.copy_nodes(self@.nodes.take(i as int), keep, node_labels),
                forall|j: int| 0 <= j < i ==> decided(filter, self@.nodes[j], #[trigger] keep[j]),
                forall|j: int|
                    0 <= j < i && keep[j] ==> cloned(
                        self@.node[self@.nodes[j]].label,
                        #[trigger] node_labels[j],
                    ),
            decreases ids.len() - i,
        {
            let v = &ids[i];
            proof {
                assert(ids.deep_view()[i as int] == v@);
                assert(ids.deep_view().len() == ids@.len());
                assert(self@.nodes.contains(v@));
                assert(self@.nodes.take(i as int + 1).drop_last() =~= self@.nodes.take(i as int));
            }
            let ghost was_keep = keep;
            let ghost was_labels = node_labels;
            let label = self.node(v).unwrap().clone();
            let wanted = filter(v);
            proof {
                keep = keep.push(wanted);
                node_labels = node_labels.push(label);
                assert(keep.drop_last() =~= was_keep);
                assert(node_labels.drop_last() =~= was_labels);
                assert(filter.ensures((v,), keep[i as int]));
                assert(decided(filter, self@.nodes[i as int], keep[i as int]));
            }
            if wanted {
                let ghost prev = copy@;
                copy.set_node(v.clone(), Some(label));
                proof {
                    crate::model::lemma_push_contains(prev.nodes, v@);
                }
            }
            i += 1;
        }
        let ghost with_nodes = copy@;
        let ghost mut edge_labels: Seq<E> = Seq::empty();
        let es = self.edges();
        let mut i: usize = 0;
        proof {
            assert(self@.nodes.take(ids.len() as int) =~= self@.nodes);
            assert(self@.edges.take(0) =~= Seq::<Seq<char>>::empty());
            assert(es@.len() == self@.edge_records().len());
        }
        while i < es.len()
            invariant
                0 <= i <= es.len(),
                self.wf(),
                copy.wf(),
                es@.len() == self@.edges.len(),
                crate::graph::edge_views(es@) == self@.edge_records(),
                copy@.directed == self@.directed,
                copy@.multigraph == self@.multigraph,
                copy@.compound == self@.compound,
                edge_labels.len() == i,
                forall|x: Seq<char>| #[trigger] copy@.nodes.contains(x) ==> self@.nodes.contains(x),
                copy@ == with_nodes.copy_edges(self@, self@.edges.take(i as int), edge_labels),
                forall|j: int|
                    0 <= j < i ==> cloned(
                        self@.edge[self@.edges[j]].label,
                        #[trigger] edge_labels[j],
                    ),
            decreases es.len() - i,
        {
            let e = &es[i];
            let ghost k = self@.edges[i as int];
            let ghost rec = self@.edge[k].rec;
            proof {
                assert(self@.edges.contains(k));
                assert(self@.edge_ok(k));
                assert(crate::graph::edge_views(es@)[i as int] == e@);
                assert(self@.edge_records()[i as int] == rec);
                assert(self@.edges.take(i as int + 1).drop_last() =~= self@.edges.take(i as int));
            }
            let ghost was_labels = edge_labels;
            let label = self.edge_with_obj(e).unwrap().clone();
            proof {
                edge_labels = edge_labels.push(label);
                assert(edge_labels.drop_last() =~= was_labels);
            }
            if copy.has_node(&e.v) && copy.has_node(&e.w) {
                let done = copy.set_edge(&e.v, &e.w, Some(label), clone_name(&e.name));
                proof {
                    assert(done.is_ok());
                }
            }
            i += 1;
        }
        proof {
            assert(self@.edges.take(es.len() as int) =~= self@.edges);
            assert(with_nodes == start.copy_nodes(self@.nodes, keep, node_labels));
            assert(copy@ == with_nodes.copy_edges(self@, self@.edges, edge_labels));
        }
        let ghost linked = copy@;
        if self.is_compound() {
            let ghost with_edges = copy@;
            let kept = copy.nodes();
            let mut i: usize = 0;
            proof {
                assert(with_edges.nodes.take(0) =~= Seq::<Seq<char>>::empty());
                assert(kept.deep_view().len() == kept@.len());
                assert forall|j: int| 0 <= j < with_edges.nodes.len() implies self@.has_node(
                    #[trigger] with_edges.nodes[j],
                ) by {
                    assert(copy@.nodes.contains(with_edges.nodes[j]));
                }
            }
            while i < kept.len()
                invariant
                    0 <= i <= kept.len(),
                    self.wf(),
                    copy.wf(),
                    self@.compound,
                    copy@.compound,
                    kept.deep_view() == with_edges.nodes,
                    copy@.nodes == with_edges.nodes,
                    forall|j: int|
                        0 <= j < with_edges.nodes.len() ==> self@.has_node(
                            #[trigger] with_edges.nodes[j],
                        ),
                    copy@ == with_edges.copy_parents(self@, with_edges.nodes.take(i as int)),
                decreases kept.len() - i,
            {
                let v = &kept[i];
                let ghost before = copy@;
                proof {
                    assert(kept.deep_view()[i as int] == v@);
                    assert(copy@.nodes.contains(v@));
                    assert(with_edges.nodes.take(i as int + 1).drop_last()
                        =~= with_edges.nodes.take(i as int));
                    assert(self@.has_node(with_edges.nodes[i as int]));
                }
                let parent = self.find_parent(v, &copy);
                proof {
                    if parent.is_some() {
                        assert(copy@.nodes.contains(parent.unwrap()@));
                    }
                    before.lemma_reparent_keeps_nodes(v@, self@.nearest(
                        before.nodes,
                        self@.parent_of(v@),
                    ));
                }
                let _ = copy.set_parent(v, parent);
                i += 1;
            }
            proof {
                assert(with_edges.nodes.take(kept.len() as int) =~= with_edges.nodes);
            }
        }
        proof {
            assert(copy@ == self@.filtered(keep, node_labels, edge_labels));
        }
        copy
    }
}

} // verus!
