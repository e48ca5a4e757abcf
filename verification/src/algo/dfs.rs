//! Depth-first traversal with an explicit stack, in pre-order or post-order.
//!
//! A traversal walks from each seed in turn along the steps that the graph
//! offers: to the successors in a directed graph, to the neighbours in an
//! undirected one. All seeds share one record of what was visited, so that
//! no node is visited twice.

use crate::error::UnknownNodeError;
use crate::graph::Graph;
use crate::model::GraphModel;
use crate::ordered_map::OrderedMap;
use vstd::prelude::*;
use vstd::string::*;

verus! {

/// How many of `nodes` are not among `seen`.
pub open spec fn unvisited(nodes: Seq<Seq<char>>, seen: Seq<Seq<char>>) -> nat
    decreases nodes.len(),
{
    if nodes.len() == 0 {
        0
    } else {
        unvisited(nodes.drop_last(), seen) + if seen.contains(nodes.last()) {
            0nat
        } else {
            1nat
        }
    }
}

/// Visiting a node that was not seen leaves fewer nodes to visit.
pub proof fn lemma_unvisited_drops(nodes: Seq<Seq<char>>, seen: Seq<Seq<char>>, v: Seq<char>)
    requires
        !seen.contains(v),
    ensures
        unvisited(nodes, seen.push(v)) <= unvisited(nodes, seen),
        nodes.contains(v) ==> unvisited(nodes, seen.push(v)) < unvisited(nodes, seen),
    decreases nodes.len(),
{
    if nodes.len() > 0 {
        let front = nodes.drop_last();
        let last = nodes.last();
        lemma_unvisited_drops(front, seen, v);
        let more = seen.push(v);
        assert(more[seen.len() as int] == v);
        if seen.contains(last) {
            let i = seen.index_of(last);
            assert(more[i] == last);
        }
        if more.contains(last) && last != v {
            let i = more.index_of(last);
            assert(seen[i] == last);
        }
        if nodes.contains(v) && last != v {
            let i = nodes.index_of(v);
            assert(front[i] == v);
        }
    }
}

/// Where a traversal goes from `v`; nowhere from what is no node.
pub open spec fn moves<N, E>(g: GraphModel<N, E>, v: Seq<char>) -> Seq<Seq<char>> {
    if g.has_node(v) {
        g.steps(v)
    } else {
        Seq::empty()
    }
}

/// `stack` with the elements of `list` pushed last to first, so that the
/// first ends on top.
pub open spec fn push_reversed(stack: Seq<Seq<char>>, list: Seq<Seq<char>>) -> Seq<Seq<char>>
    decreases list.len(),
{
    if list.len() == 0 {
        stack
    } else {
        push_reversed(stack.push(list.last()), list.drop_last())
    }
}

/// `stack` with the elements of `list` pushed last to first, each still
/// to be visited.
pub open spec fn push_pending(stack: Seq<(Seq<char>, bool)>, list: Seq<Seq<char>>) -> Seq<
    (Seq<char>, bool),
>
    decreases list.len(),
{
    if list.len() == 0 {
        stack
    } else {
        push_pending(stack.push((list.last(), false)), list.drop_last())
    }
}

/// Pre-order from a stack of nodes to visit: the top node, if it was not
/// visited, is put out and its steps are pushed; what results is the
/// output once the stack is empty.
pub open spec fn pre_run<N, E>(
    g: GraphModel<N, E>,
    stack: Seq<Seq<char>>,
    out: Seq<Seq<char>>,
) -> Seq<Seq<char>>
    decreases unvisited(g.nodes, out), stack.len(),
{
    if stack.len() == 0 {
        out
    } else {
        let v = stack.last();
        let rest = stack.drop_last();
        if out.contains(v) || !g.has_node(v) {
            pre_run(g, rest, out)
        } else {
            proof {
                lemma_unvisited_drops(g.nodes, out, v);
            }
            pre_run(g, push_reversed(rest, g.steps(v)), out.push(v))
        }
    }
}

/// Post-order from a stack of entries. An entry still to be visited, if
/// its node was not seen, marks the node as seen and is replaced by an
/// entry that puts the node out, with the node's steps pushed above it. An
/// entry that puts a node out does so. What results are the nodes seen and
/// the output once the stack is empty.
pub open spec fn post_run<N, E>(
    g: GraphModel<N, E>,
    stack: Seq<(Seq<char>, bool)>,
    seen: Seq<Seq<char>>,
    out: Seq<Seq<char>>,
) -> (Seq<Seq<char>>, Seq<Seq<char>>)
    decreases unvisited(g.nodes, seen), stack.len(),
{
    if stack.len() == 0 {
        (seen, out)
    } else {
        let top = stack.last();
        let rest = stack.drop_last();
        if top.1 {
            post_run(g, rest, seen, out.push(top.0))
        } else if seen.contains(top.0) || !g.has_node(top.0) {
            post_run(g, rest, seen, out)
        } else {
            proof {
                lemma_unvisited_drops(g.nodes, seen, top.0);
            }
            post_run(g, push_pending(rest.push((top.0, true)), g.steps(top.0)), seen.push(top.0), out)
        }
    }
}

/// Pre-order from each seed in turn, after `out`.
pub open spec fn pre_order<N, E>(
    g: GraphModel<N, E>,
    seeds: Seq<Seq<char>>,
    out: Seq<Seq<char>>,
) -> Seq<Seq<char>>
    decreases seeds.len(),
{
    if seeds.len() == 0 {
        out
    } else {
        pre_order(g, seeds.drop_first(), pre_run(g, seq![seeds[0]], out))
    }
}

/// Post-order from each seed in turn, after `out`, with `seen` seen.
pub open spec fn post_order<N, E>(
    g: GraphModel<N, E>,
    seeds: Seq<Seq<char>>,
    seen: Seq<Seq<char>>,
    out: Seq<Seq<char>>,
) -> Seq<Seq<char>>
    decreases seeds.len(),
{
    if seeds.len() == 0 {
        out
    } else {
        let next = post_run(g, seq![(seeds[0], false)], seen, out);
        post_order(g, seeds.drop_first(), next.0, next.1)
    }
}

/// The nodes in the order in which a traversal from `seeds` puts them out.
pub open spec fn traversal<N, E>(g: GraphModel<N, E>, seeds: Seq<Seq<char>>, post: bool) -> Seq<
    Seq<char>,
> {
    if post {
        post_order(g, seeds, Seq::empty(), Seq::empty())
    } else {
        pre_order(g, seeds, Seq::empty())
    }
}

/// Whether all of `seeds` are nodes.
pub open spec fn all_known<N, E>(g: GraphModel<N, E>, seeds: Seq<Seq<char>>) -> bool {
    forall|i: int| 0 <= i < seeds.len() ==> g.has_node(#[trigger] seeds[i])
}

/// The content of a stack of entries.
pub open spec fn entries_view(stack: Seq<(String, bool)>) -> Seq<(Seq<char>, bool)> {
    Seq::new(stack.len(), |i: int| (stack[i].0@, stack[i].1))
}

/// Where the traversal goes from `v`.
fn navigation<GL: Default, N: Default + Clone, E: Default + Clone>(
    g: &Graph<GL, N, E>,
    v: &String,
) -> (r: Vec<String>)
    requires
        g.wf(),
    ensures
        r.deep_view() == moves(g@, v@),
{
    let found = if g.is_directed() {
        g.successors(v)
    } else {
        g.neighbors(v)
    };
    match found {
        Some(list) => list,
        None => {
            let r: Vec<String> = Vec::new();
            proof {
                assert(r.deep_view() =~= Seq::<Seq<char>>::empty());
            }
            r
        },
    }
}

/// Pre-order from `v`, sharing `visited` and `acc` with the seeds before.
fn pre_order_dfs<GL: Default, N: Default + Clone, E: Default + Clone>(
    v: &String,
    visited: &mut OrderedMap<bool>,
    acc: &mut Vec<String>,
    g: &Graph<GL, N, E>,
)
    requires
        g.wf(),
        g@.has_node(v@),
        old(visited).wf(),
        old(visited).key_seq() == old(acc).deep_view(),
    ensures
        final(visited).wf(),
        final(visited).key_seq() == final(acc).deep_view(),
        final(acc).deep_view() == pre_run(g@, seq![v@], old(acc).deep_view()),
{
    let ghost goal = pre_run(g@, seq![v@], acc.deep_view());
    let mut stack: Vec<String> = Vec::new();
    stack.push(v.clone());
    proof {
        assert(stack.deep_view() =~= seq![v@]);
    }
    while stack.len() > 0
        invariant
            g.wf(),
            visited.wf(),
            visited.key_seq() == acc.deep_view(),
            forall|i: int| 0 <= i < stack.len() ==> g@.has_node(#[trigger] stack.deep_view()[i]),
            pre_run(g@, stack.deep_view(), acc.deep_view()) == goal,
        decreases unvisited(g@.nodes, acc.deep_view()), stack.len(),
    {
        let ghost before = stack.deep_view();
        let ghost out = acc.deep_view();
        let curr = stack.pop().unwrap();
        proof {
            assert(stack.deep_view() =~= before.drop_last());
            assert(curr@ == before.last());
            assert(g@.has_node(before[before.len() - 1]));
        }
        if !visited.contains_key(&curr) {
            visited.insert(curr.clone(), true);
            acc.push(curr.clone());
            proof {
                assert(acc.deep_view() =~= out.push(curr@));
                lemma_unvisited_drops(g@.nodes, out, curr@);
            }
            let nav = navigation(g, &curr);
            let ghost rest = stack.deep_view();
            let ghost list = nav.deep_view();
            let mut idx = nav.len();
            proof {
                assert(list.take(idx as int) =~= list);
                assert forall|i: int| 0 <= i < list.len() implies g@.has_node(
                    #[trigger] list[i],
                ) by {
                    g@.lemma_steps_are_nodes(curr@, list[i]);
                }
            }
            while idx > 0
                invariant
                    0 <= idx <= nav.len(),
                    list == nav.deep_view(),
                    forall|i: int| 0 <= i < list.len() ==> g@.has_node(#[trigger] list[i]),
                    forall|i: int|
                        0 <= i < stack.len() ==> g@.has_node(#[trigger] stack.deep_view()[i]),
                    push_reversed(stack.deep_view(), list.take(idx as int)) == push_reversed(
                        rest,
                        list,
                    ),
                decreases idx,
            {
                let ghost was = stack.deep_view();
                stack.push(nav[idx - 1].clone());
                proof {
                    assert(nav@[idx - 1]@ == list[idx - 1]);
                    assert(stack.deep_view() =~= was.push(list[idx - 1]));
                    assert(list.take(idx as int).drop_last() =~= list.take(idx - 1));
                    assert(list.take(idx as int).last() == list[idx - 1]);
                }
                idx -= 1;
            }
            proof {
                assert(list.take(0).len() == 0);
            }
        }
    }
}

/// Post-order from `v`, sharing `visited` and `acc` with the seeds before.
fn post_order_dfs<GL: Default, N: Default + Clone, E: Default + Clone>(
    v: &String,
    visited: &mut OrderedMap<bool>,
    acc: &mut Vec<String>,
    g: &Graph<GL, N, E>,
)
    requires
        g.wf(),
        g@.has_node(v@),
        old(visited).wf(),
    ensures
        final(visited).wf(),
        (final(visited).key_seq(), final(acc).deep_view()) == post_run(
            g@,
            seq![(v@, false)],
            old(visited).key_seq(),
            old(acc).deep_view(),
        ),
{
    let ghost goal = post_run(g@, seq![(v@, false)], visited.key_seq(), acc.deep_view());
    let mut stack: Vec<(String, bool)> = Vec::new();
    stack.push((v.clone(), false));
    proof {
        assert(entries_view(stack@) =~= seq![(v@, false)]);
    }
    while stack.len() > 0
        invariant
            g.wf(),
            visited.wf(),
            forall|i: int|
                0 <= i < stack.len() ==> g@.has_node((#[trigger] entries_view(stack@)[i]).0),
            post_run(g@, entries_view(stack@), visited.key_seq(), acc.deep_view()) == goal,
        decreases unvisited(g@.nodes, visited.key_seq()), stack.len(),
    {
        let ghost before = entries_view(stack@);
        let ghost out = acc.deep_view();
        let ghost seen = visited.key_seq();
        let curr = stack.pop().unwrap();
        proof {
            assert(entries_view(stack@) =~= before.drop_last());
            assert((curr.0@, curr.1) == before.last());
            assert(g@.has_node(before[before.len() - 1].0));
        }
        if curr.1 {
            acc.push(curr.0);
            proof {
                assert(acc.deep_view() =~= out.push(before.last().0));
            }
        } else if !visited.contains_key(&curr.0) {
            visited.insert(curr.0.clone(), true);
            proof {
                lemma_unvisited_drops(g@.nodes, seen, curr.0@);
            }
            let nav = navigation(g, &curr.0);
            let ghost open = entries_view(stack@);
            stack.push((curr.0.clone(), true));
            let ghost rest = entries_view(stack@);
            let ghost list = nav.deep_view();
            let mut idx = nav.len();
            proof {
                assert(rest =~= open.push((curr.0@, true)));
                assert(list.take(idx as int) =~= list);
                assert forall|i: int| 0 <= i < list.len() implies g@.has_node(
                    #[trigger] list[i],
                ) by {
                    g@.lemma_steps_are_nodes(curr.0@, list[i]);
                }
            }
            while idx > 0
                invariant
                    0 <= idx <= nav.len(),
                    list == nav.deep_view(),
                    forall|i: int| 0 <= i < list.len() ==> g@.has_node(#[trigger] list[i]),
                    forall|i: int|
                        0 <= i < stack.len() ==> g@.has_node(
                            (#[trigger] entries_view(stack@)[i]).0,
                        ),
                    push_pending(entries_view(stack@), list.take(idx as int)) == push_pending(
                        rest,
                        list,
                    ),
                decreases idx,
            {
                let ghost was = entries_view(stack@);
                stack.push((nav[idx - 1].clone(), false));
                proof {
                    assert(nav@[idx - 1]@ == list[idx - 1]);
                    assert(entries_view(stack@) =~= was.push((list[idx - 1], false)));
                    assert(list.take(idx as int).drop_last() =~= list.take(idx - 1));
                    assert(list.take(idx as int).last() == list[idx - 1]);
                }
                idx -= 1;
            }
            proof {
                assert(list.take(0).len() == 0);
            }
        }
    }
}

/// Whether `order` asks for post-order: it does when it is `"post"`, and
/// anything else asks for pre-order.
fn wants_post(order: &str) -> (r: bool)
    ensures
        r == (order@ == "post"@),
{
    let given = String::from_str(order);
    let post = String::from_str("post");
    given == post
}

/// Traverses the graph depth first from the seeds `vs`, one after the
/// other, and returns the nodes in pre-order, or in post-order where
/// `order` is `"post"`. No node is returned twice. Fails where a seed is no
/// node, and names the first such seed.
pub fn dfs<GL: Default, N: Default + Clone, E: Default + Clone>(
    g: &mut Graph<GL, N, E>,
    vs: &Vec<String>,
    order: &str,
) -> (r: Result<Vec<String>, UnknownNodeError>)
    requires
        old(g).wf(),
    ensures
        *final(g) == *old(g),
        r.is_ok() == all_known(old(g)@, vs.deep_view()),
        match r {
            Ok(out) => out.deep_view() == traversal(old(g)@, vs.deep_view(), order@ == "post"@),
            Err(e) => exists|i: int|
                0 <= i < vs.len() && e.node@ == #[trigger] vs.deep_view()[i] && !old(g)@.has_node(
                    e.node@,
                ) && all_known(old(g)@, vs.deep_view().take(i)),
        },
{
    let post = wants_post(order);
    let ghost seeds = vs.deep_view();
    let mut acc: Vec<String> = Vec::new();
    let mut visited: OrderedMap<bool> = OrderedMap::new();
    let mut i: usize = 0;
    proof {
        assert(acc.deep_view() =~= Seq::<Seq<char>>::empty());
        assert(seeds.skip(0) =~= seeds);
    }
    while i < vs.len()
        invariant
            0 <= i <= vs.len(),
            seeds == vs.deep_view(),
            g.wf(),
            visited.wf(),
            all_known(g@, seeds.take(i as int)),
            !post ==> visited.key_seq() == acc.deep_view(),
            !post ==> traversal(g@, seeds, post) == pre_order(
                g@,
                seeds.skip(i as int),
                acc.deep_view(),
            ),
            post ==> traversal(g@, seeds, post) == post_order(
                g@,
                seeds.skip(i as int),
                visited.key_seq(),
                acc.deep_view(),
            ),
        decreases vs.len() - i,
    {
        proof {
            assert(seeds[i as int] == vs@[i as int]@);
            assert(seeds.skip(i as int)[0] == seeds[i as int]);
            assert(seeds.skip(i as int).drop_first() =~= seeds.skip(i as int + 1));
        }
        if !g.has_node(&vs[i]) {
            return Err(UnknownNodeError { node: vs[i].clone() });
        }
        if post {
            post_order_dfs(&vs[i], &mut visited, &mut acc, &*g);
        } else {
            pre_order_dfs(&vs[i], &mut visited, &mut acc, &*g);
        }
        proof {
            assert forall|j: int| 0 <= j < i + 1 implies g@.has_node(
                #[trigger] seeds.take(i as int + 1)[j],
            ) by {
                if j < i {
                    assert(seeds.take(i as int)[j] == seeds[j]);
                }
            }
        }
        i += 1;
    }
    proof {
        assert(seeds.take(vs.len() as int) =~= seeds);
    }
    Ok(acc)
}

} // verus!
