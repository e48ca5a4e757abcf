//! What holds of the order in which a traversal puts the nodes out.

use crate::algo::dfs::{
    lemma_unvisited_drops, moves, pre_order, pre_run, push_reversed, traversal, unvisited,
    all_known,
};
use crate::algo::walks::{
    closed, lemma_closed_holds, lemma_reach_self, lemma_reach_step, reachable, reached_from, step,
};
use crate::model::{lemma_push_contains, GraphModel};
use vstd::prelude::*;

verus! {

/// What `push_reversed` holds: the stack and the list.
pub proof fn lemma_push_reversed_holds(stack: Seq<Seq<char>>, list: Seq<Seq<char>>, x: Seq<char>)
    ensures
        push_reversed(stack, list).contains(x) <==> stack.contains(x) || list.contains(x),
    decreases list.len(),
{
    if list.len() > 0 {
        let front = list.drop_last();
        lemma_push_reversed_holds(stack.push(list.last()), front, x);
        lemma_push_contains(stack, list.last());
        assert(list[list.len() - 1] == list.last());
        if front.contains(x) {
            let i = front.index_of(x);
            assert(list[i] == x);
        }
        if list.contains(x) && x != list.last() {
            let i = list.index_of(x);
            assert(front[i] == x);
        }
    }
}

/// The state of a pre-order traversal from `seeds` is in order: what was
/// put out and what waits on the stack are nodes reachable from the seeds,
/// nothing was put out twice, and every step from a node that was put out
/// leads to a node that was put out or waits.
pub open spec fn pre_ok<N, E>(
    g: GraphModel<N, E>,
    seeds: Seq<Seq<char>>,
    stack: Seq<Seq<char>>,
    out: Seq<Seq<char>>,
) -> bool {
    &&& out.no_duplicates()
    &&& forall|x: Seq<char>| #[trigger] out.contains(x) ==> g.has_node(x) && reached_from(g, seeds, x)
    &&& forall|x: Seq<char>|
        #[trigger] stack.contains(x) ==> g.has_node(x) && reached_from(g, seeds, x)
    &&& forall|u: Seq<char>, x: Seq<char>|
        out.contains(u) && #[trigger] step(g, u, x) ==> out.contains(x) || stack.contains(x)
}

/// Running the pre-order machine from a state in order ends in a state in
/// order that holds what was put out before and what waited.
pub proof fn lemma_pre_run<N, E>(
    g: GraphModel<N, E>,
    seeds: Seq<Seq<char>>,
    stack: Seq<Seq<char>>,
    out: Seq<Seq<char>>,
)
    requires
        g.inv(),
        pre_ok(g, seeds, stack, out),
    ensures
        pre_ok(g, seeds, Seq::empty(), pre_run(g, stack, out)),
        forall|x: Seq<char>| out.contains(x) || stack.contains(x) ==> #[trigger] pre_run(
            g,
            stack,
            out,
        ).contains(x),
    decreases unvisited(g.nodes, out), stack.len(),
{
    if stack.len() == 0 {
        assert(stack =~= Seq::empty());
    } else {
        let v = stack.last();
        let rest = stack.drop_last();
        assert(stack.contains(v)) by {
            assert(stack[stack.len() - 1] == v);
        }
        assert forall|x: Seq<char>| #[trigger] rest.contains(x) implies stack.contains(x) by {
            let i = rest.index_of(x);
            assert(stack[i] == x);
        }
        assert forall|x: Seq<char>| #[trigger] stack.contains(x) implies rest.contains(x) || x
            == v by {
            let i = stack.index_of(x);
            if i < rest.len() {
                assert(rest[i] == x);
            }
        }
        if out.contains(v) {
            assert(pre_ok(g, seeds, rest, out));
            lemma_pre_run(g, seeds, rest, out);
        } else {
            let next = push_reversed(rest, g.steps(v));
            let more = out.push(v);
            lemma_unvisited_drops(g.nodes, out, v);
            lemma_push_contains(out, v);
            assert forall|x: Seq<char>| #[trigger] next.contains(x) implies g.has_node(x)
                && reached_from(g, seeds, x) by {
                lemma_push_reversed_holds(rest, g.steps(v), x);
                if !rest.contains(x) {
                    g.lemma_steps_are_nodes(v, x);
                    let i = choose|i: int| 0 <= i < seeds.len() && #[trigger] reachable(g, seeds[i], v);
                    assert(step(g, v, x));
                    lemma_reach_step(g, seeds[i], v, x);
                }
            }
            assert forall|u: Seq<char>, x: Seq<char>|
                more.contains(u) && #[trigger] step(g, u, x) implies more.contains(x)
                || next.contains(x) by {
                lemma_push_reversed_holds(rest, g.steps(v), x);
                if u != v {
                    assert(out.contains(u));
                }
            }
            assert(pre_ok(g, seeds, next, more));
            lemma_pre_run(g, seeds, next, more);
            assert forall|x: Seq<char>| out.contains(x) || stack.contains(x) implies #[trigger] pre_run(
                g,
                stack,
                out,
            ).contains(x) by {
                lemma_push_reversed_holds(rest, g.steps(v), x);
            }
        }
    }
}

/// Running the pre-order machine from each seed in turn ends in a state
/// in order that holds what was put out before and the seeds.
pub proof fn lemma_pre_order<N, E>(
    g: GraphModel<N, E>,
    seeds: Seq<Seq<char>>,
    todo: Seq<Seq<char>>,
    out: Seq<Seq<char>>,
)
    requires
        g.inv(),
        pre_ok(g, seeds, Seq::empty(), out),
        forall|i: int| 0 <= i < todo.len() ==> g.has_node(#[trigger] todo[i]) && reached_from(
            g,
            seeds,
            todo[i],
        ),
    ensures
        pre_ok(g, seeds, Seq::empty(), pre_order(g, todo, out)),
        forall|x: Seq<char>| out.contains(x) || todo.contains(x) ==> #[trigger] pre_order(
            g,
            todo,
            out,
        ).contains(x),
    decreases todo.len(),
{
    if todo.len() > 0 {
        let first = seq![todo[0]];
        assert forall|x: Seq<char>| #[trigger] first.contains(x) implies x == todo[0] by {
            let i = first.index_of(x);
        }
        assert(first.contains(todo[0])) by {
            assert(first[0] == todo[0]);
        }
        assert(pre_ok(g, seeds, first, out));
        lemma_pre_run(g, seeds, first, out);
        let next = pre_run(g, first, out);
        let rest = todo.drop_first();
        assert forall|i: int| 0 <= i < rest.len() implies g.has_node(#[trigger] rest[i])
            && reached_from(g, seeds, rest[i]) by {
            assert(rest[i] == todo[i + 1]);
        }
        lemma_pre_order(g, seeds, rest, next);
        assert forall|x: Seq<char>| out.contains(x) || todo.contains(x) implies #[trigger] pre_order(
            g,
            todo,
            out,
        ).contains(x) by {
            if todo.contains(x) && x != todo[0] {
                let i = todo.index_of(x);
                assert(rest[i - 1] == x);
            }
        }
    }
}

/// A pre-order traversal from seeds that are nodes puts out each node
/// that is reachable from a seed, once, and nothing else.
pub proof fn law_pre_order_reaches_all_once<N, E>(g: GraphModel<N, E>, seeds: Seq<Seq<char>>)
    requires
        g.inv(),
        all_known(g, seeds),
    ensures
        traversal(g, seeds, false).no_duplicates(),
        forall|x: Seq<char>| #[trigger]
            traversal(g, seeds, false).contains(x) <==> reached_from(g, seeds, x),
{
    let empty = Seq::<Seq<char>>::empty();
    assert forall|i: int| 0 <= i < seeds.len() implies g.has_node(#[trigger] seeds[i])
        && reached_from(g, seeds, seeds[i]) by {
        lemma_reach_self(g, seeds[i]);
    }
    assert(pre_ok(g, seeds, empty, empty));
    lemma_pre_order(g, seeds, seeds, empty);
    let out = traversal(g, seeds, false);
    assert(closed(g, out));
    assert forall|x: Seq<char>| reached_from(g, seeds, x) implies #[trigger] out.contains(x) by {
        let i = choose|i: int| 0 <= i < seeds.len() && #[trigger] reachable(g, seeds[i], x);
        assert(seeds.contains(seeds[i]));
        lemma_closed_holds(g, out, seeds[i], x);
    }
}

} // verus!
