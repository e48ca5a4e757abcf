//! Walks: what can be reached from a node by the steps of a traversal.

use crate::algo::dfs::moves;
use crate::model::GraphModel;
use vstd::prelude::*;

verus! {

/// Whether a traversal can go from `a` to `b` in one step.
pub open spec fn step<N, E>(g: GraphModel<N, E>, a: Seq<char>, b: Seq<char>) -> bool {
    moves(g, a).contains(b)
}

/// Whether `p` is a walk: a list of at least one node in which each node
/// but the last is one step from the next.
pub open spec fn is_walk<N, E>(g: GraphModel<N, E>, p: Seq<Seq<char>>) -> bool {
    &&& p.len() >= 1
    &&& forall|i: int| 0 <= i < p.len() - 1 ==> step(g, #[trigger] p[i], p[i + 1])
}

/// Whether some walk leads from `a` to `b`. Every node is reachable from
/// itself.
pub open spec fn reachable<N, E>(g: GraphModel<N, E>, a: Seq<char>, b: Seq<char>) -> bool {
    exists|p: Seq<Seq<char>>| #[trigger] is_walk(g, p) && p[0] == a && p.last() == b
}

/// Whether `x` is reachable from one of `seeds`.
pub open spec fn reached_from<N, E>(g: GraphModel<N, E>, seeds: Seq<Seq<char>>, x: Seq<char>) -> bool {
    exists|i: int| 0 <= i < seeds.len() && #[trigger] reachable(g, seeds[i], x)
}

/// Whether `set` holds, with each of its elements, all that is one step
/// from it.
pub open spec fn closed<N, E>(g: GraphModel<N, E>, set: Seq<Seq<char>>) -> bool {
    forall|u: Seq<char>, x: Seq<char>|
        set.contains(u) && #[trigger] step(g, u, x) ==> set.contains(x)
}

/// Every node is reachable from itself.
pub proof fn lemma_reach_self<N, E>(g: GraphModel<N, E>, a: Seq<char>)
    ensures
        reachable(g, a, a),
{
    let p = seq![a];
    assert(is_walk(g, p));
    assert(p[0] == a && p.last() == a);
}

/// What is one step from something reachable is reachable.
pub proof fn lemma_reach_step<N, E>(g: GraphModel<N, E>, a: Seq<char>, b: Seq<char>, c: Seq<char>)
    requires
        reachable(g, a, b),
        step(g, b, c),
    ensures
        reachable(g, a, c),
{
    let p = choose|p: Seq<Seq<char>>| #[trigger] is_walk(g, p) && p[0] == a && p.last() == b;
    let q = p.push(c);
    assert forall|i: int| 0 <= i < q.len() - 1 implies step(g, #[trigger] q[i], q[i + 1]) by {
        if i < p.len() - 1 {
            assert(step(g, p[i], p[i + 1]));
        }
    }
    assert(is_walk(g, q));
    assert(q[0] == a && q.last() == c);
}

/// A closed set holds all that is reachable from its elements.
pub proof fn lemma_closed_holds<N, E>(
    g: GraphModel<N, E>,
    set: Seq<Seq<char>>,
    a: Seq<char>,
    x: Seq<char>,
)
    requires
        closed(g, set),
        set.contains(a),
        reachable(g, a, x),
    ensures
        set.contains(x),
{
    let p = choose|p: Seq<Seq<char>>| #[trigger] is_walk(g, p) && p[0] == a && p.last() == x;
    lemma_walk_stays(g, set, p, p.len() - 1);
}

/// A walk that starts in a closed set stays in it.
proof fn lemma_walk_stays<N, E>(g: GraphModel<N, E>, set: Seq<Seq<char>>, p: Seq<Seq<char>>, i: int)
    requires
        closed(g, set),
        is_walk(g, p),
        set.contains(p[0]),
        0 <= i < p.len(),
    ensures
        set.contains(p[i]),
    decreases i,
{
    if i > 0 {
        lemma_walk_stays(g, set, p, i - 1);
        assert(step(g, p[i - 1], p[i]));
    }
}

} // verus!
