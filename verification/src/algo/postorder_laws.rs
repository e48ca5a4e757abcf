//! What holds of a post-order traversal: that it puts out each reachable
//! node once, and each node after the nodes that it leads to.

use crate::algo::dfs::{
    all_known, lemma_unvisited_drops, post_order, post_run, push_pending, traversal, unvisited,
};
use crate::algo::walks::{
    closed, lemma_closed_holds, lemma_reach_self, lemma_reach_step, reachable, reached_from, step,
};
use crate::model::{lemma_push_contains, GraphModel};
use crate::ordered_map::lemma_index_of_unique;
use vstd::prelude::*;

verus! {

/// Whether `m` stands before `n` in `out`.
pub open spec fn before(out: Seq<Seq<char>>, m: Seq<char>, n: Seq<char>) -> bool {
    out.contains(m) && out.contains(n) && out.index_of(m) < out.index_of(n)
}

/// Whether an entry for `m` lies above position `i` of the stack.
pub open spec fn above(stack: Seq<(Seq<char>, bool)>, i: int, m: Seq<char>) -> bool {
    exists|j: int| i < j < stack.len() && (#[trigger] stack[j]).0 == m
}

/// The nodes seen and the entries on the stack are nodes reachable from
/// the seeds, and nothing was seen or put out twice.
pub open spec fn post_basic<N, E>(
    g: GraphModel<N, E>,
    seeds: Seq<Seq<char>>,
    stack: Seq<(Seq<char>, bool)>,
    seen: Seq<Seq<char>>,
    out: Seq<Seq<char>>,
) -> bool {
    &&& seen.no_duplicates()
    &&& out.no_duplicates()
    &&& forall|x: Seq<char>|
        #[trigger] seen.contains(x) ==> g.has_node(x) && reached_from(g, seeds, x)
    &&& forall|i: int|
        0 <= i < stack.len() ==> g.has_node((#[trigger] stack[i]).0) && reached_from(
            g,
            seeds,
            stack[i].0,
        )
}

/// A node that was seen was put out or has, once, an entry on the stack
/// that will put it out, and not both.
pub open spec fn post_marks(
    stack: Seq<(Seq<char>, bool)>,
    seen: Seq<Seq<char>>,
    out: Seq<Seq<char>>,
) -> bool {
    &&& forall|x: Seq<char>| #[trigger] out.contains(x) ==> seen.contains(x)
    &&& forall|i: int|
        0 <= i < stack.len() && (#[trigger] stack[i]).1 ==> seen.contains(stack[i].0)
            && !out.contains(stack[i].0)
    &&& forall|i: int, j: int|
        0 <= i < j < stack.len() && (#[trigger] stack[i]).1 && (#[trigger] stack[j]).1
            ==> stack[i].0 != stack[j].0
    &&& forall|x: Seq<char>|
        #[trigger] seen.contains(x) ==> out.contains(x) || stack.contains((x, true))
}

/// Every step from a node that was seen leads to a node that was seen or
/// waits on the stack.
pub open spec fn post_closure<N, E>(
    g: GraphModel<N, E>,
    stack: Seq<(Seq<char>, bool)>,
    seen: Seq<Seq<char>>,
) -> bool {
    forall|u: Seq<char>, x: Seq<char>|
        seen.contains(u) && #[trigger] step(g, u, x) ==> seen.contains(x) || stack.contains(
            (x, false),
        )
}

/// A node that was put out stands after each node that it leads to,
/// unless that node leads back to it. A node that is yet to be put out
/// leads only to nodes that were put out, that lead back to it, or that
/// have an entry above its own. And each node that is yet to be put out
/// leads to all that lies above its entry.
pub open spec fn post_sorted<N, E>(
    g: GraphModel<N, E>,
    stack: Seq<(Seq<char>, bool)>,
    out: Seq<Seq<char>>,
) -> bool {
    &&& forall|n: Seq<char>, m: Seq<char>|
        out.contains(n) && #[trigger] step(g, n, m) ==> before(out, m, n) || reachable(g, m, n)
    &&& forall|i: int, m: Seq<char>|
        0 <= i < stack.len() && (#[trigger] stack[i]).1 && #[trigger] step(g, stack[i].0, m)
            ==> out.contains(m) || reachable(g, m, stack[i].0) || above(stack, i, m)
    &&& forall|i: int, j: int|
        0 <= i < j < stack.len() && (#[trigger] stack[i]).1 ==> reachable(
            g,
            stack[i].0,
            (#[trigger] stack[j]).0,
        )
}

/// The state of a post-order traversal from `seeds` is in order.
pub open spec fn post_ok<N, E>(
    g: GraphModel<N, E>,
    seeds: Seq<Seq<char>>,
    stack: Seq<(Seq<char>, bool)>,
    seen: Seq<Seq<char>>,
    out: Seq<Seq<char>>,
) -> bool {
    &&& post_basic(g, seeds, stack, seen, out)
    &&& post_marks(stack, seen, out)
    &&& post_closure(g, stack, seen)
    &&& post_sorted(g, stack, out)
}

/// What `push_pending` makes: the stack, and above it an entry, yet to be
/// visited, for each element of the list and for nothing else.
pub proof fn lemma_push_pending_shape(stack: Seq<(Seq<char>, bool)>, list: Seq<Seq<char>>)
    ensures
        push_pending(stack, list).len() == stack.len() + list.len(),
        forall|i: int| 0 <= i < stack.len() ==> #[trigger] push_pending(stack, list)[i] == stack[i],
        forall|i: int|
            stack.len() <= i < stack.len() + list.len() ==> !(#[trigger] push_pending(
                stack,
                list,
            )[i]).1 && list.contains(push_pending(stack, list)[i].0),
        forall|x: Seq<char>| #[trigger]
            list.contains(x) ==> exists|j: int|
                stack.len() <= j < stack.len() + list.len() && #[trigger] push_pending(
                    stack,
                    list,
                )[j] == (x, false),
    decreases list.len(),
{
    if list.len() > 0 {
        let front = list.drop_last();
        let grown = stack.push((list.last(), false));
        let r = push_pending(stack, list);
        lemma_push_pending_shape(grown, front);
        assert(list[list.len() - 1] == list.last());
        assert forall|i: int| 0 <= i < stack.len() implies #[trigger] r[i] == stack[i] by {
            assert(grown[i] == stack[i]);
        }
        assert forall|i: int| stack.len() <= i < stack.len() + list.len() implies !(#[trigger] r[i]).1
            && list.contains(r[i].0) by {
            if i == stack.len() {
                assert(r[i] == grown[i]);
            } else {
                let x = r[i].0;
                assert(front.contains(x));
                let k = front.index_of(x);
                assert(list[k] == x);
            }
        }
        assert forall|x: Seq<char>| #[trigger] list.contains(x) implies exists|j: int|
            stack.len() <= j < stack.len() + list.len() && #[trigger] r[j] == (x, false) by {
            if x == list.last() {
                assert(r[stack.len() as int] == grown[stack.len() as int]);
            } else {
                let k = list.index_of(x);
                assert(front[k] == x);
                assert(front.contains(x));
                let j = choose|j: int|
                    grown.len() <= j < grown.len() + front.len() && #[trigger] r[j] == (x, false);
                assert(r[j] == (x, false));
            }
        }
    }
}

/// In a list without duplicates to which a new element was added, the old
/// elements stand where they stood and the new one stands last.
pub proof fn lemma_before_push(out: Seq<Seq<char>>, v: Seq<char>)
    requires
        out.no_duplicates(),
        !out.contains(v),
    ensures
        out.push(v).no_duplicates(),
        forall|m: Seq<char>| #[trigger] out.contains(m) ==> before(out.push(v), m, v),
        forall|m: Seq<char>, n: Seq<char>| #[trigger]
            before(out, m, n) ==> before(out.push(v), m, n),
{
    let more = out.push(v);
    lemma_push_contains(out, v);
    lemma_index_of_unique(more, out.len() as int);
    assert forall|m: Seq<char>| #[trigger] out.contains(m) implies more.contains(m)
        && more.index_of(m) == out.index_of(m) by {
        let i = out.index_of(m);
        assert(more[i] == m);
        lemma_index_of_unique(more, i);
    }
}

/// Running the post-order machine from a state in order ends in a state in
/// order, with an empty stack, that has seen what was seen before and
/// what waited.
pub proof fn lemma_post_run<N, E>(
    g: GraphModel<N, E>,
    seeds: Seq<Seq<char>>,
    stack: Seq<(Seq<char>, bool)>,
    seen: Seq<Seq<char>>,
    out: Seq<Seq<char>>,
)
    requires
        g.inv(),
        post_ok(g, seeds, stack, seen, out),
    ensures
        post_ok(
            g,
            seeds,
            Seq::empty(),
            post_run(g, stack, seen, out).0,
            post_run(g, stack, seen, out).1,
        ),
        forall|x: Seq<char>| seen.contains(x) ==> #[trigger] post_run(g, stack, seen, out).0.contains(x),
        forall|i: int|
            0 <= i < stack.len() ==> post_run(g, stack, seen, out).0.contains(
                (#[trigger] stack[i]).0,
            ),
    decreases unvisited(g.nodes, seen), stack.len(),
{
    if stack.len() == 0 {
        assert(stack =~= Seq::empty());
    } else {
        let top = stack.last();
        let v = top.0;
        let t = stack.len() - 1;
        let rest = stack.drop_last();
        assert(stack[t] == top);
        assert forall|i: int| 0 <= i < rest.len() implies #[trigger] rest[i] == stack[i] by {}
        assert forall|e: (Seq<char>, bool)| #[trigger] stack.contains(e) implies rest.contains(e)
            || e == top by {
            let i = stack.index_of(e);
            if i < rest.len() {
                assert(rest[i] == e);
            }
        }
        assert forall|e: (Seq<char>, bool)| #[trigger] rest.contains(e) implies stack.contains(
            e,
        ) by {
            let i = rest.index_of(e);
            assert(stack[i] == e);
        }
        if top.1 {
            let more = out.push(v);
            lemma_before_push(out, v);
            lemma_push_contains(out, v);
            assert(post_basic(g, seeds, rest, seen, more));
            assert(post_marks(rest, seen, more)) by {
                assert forall|i: int| 0 <= i < rest.len() && (#[trigger] rest[i]).1 implies seen.contains(
                    rest[i].0,
                ) && !more.contains(rest[i].0) by {
                    assert(stack[i].1 && stack[t].1);
                }
                assert forall|x: Seq<char>| #[trigger] seen.contains(x) implies more.contains(x)
                    || rest.contains((x, true)) by {
                    if !out.contains(x) && x != v {
                        assert(stack.contains((x, true)));
                    }
                }
            }
            assert(post_closure(g, rest, seen)) by {
                assert forall|u: Seq<char>, x: Seq<char>|
                    seen.contains(u) && #[trigger] step(g, u, x) implies seen.contains(x)
                    || rest.contains((x, false)) by {
                    if !seen.contains(x) {
                        assert(stack.contains((x, false)));
                    }
                }
            }
            assert(post_sorted(g, rest, more)) by {
                assert forall|n: Seq<char>, m: Seq<char>|
                    more.contains(n) && #[trigger] step(g, n, m) implies before(more, m, n)
                    || reachable(g, m, n) by {
                    if n == v {
                        assert(stack[t].1 && step(g, stack[t].0, m));
                        if above(stack, t, m) {
                            let j = choose|j: int| t < j < stack.len() && (#[trigger] stack[j]).0 == m;
                        }
                    } else {
                        assert(out.contains(n));
                    }
                }
                assert forall|i: int, m: Seq<char>|
                    0 <= i < rest.len() && (#[trigger] rest[i]).1 && #[trigger] step(
                        g,
                        rest[i].0,
                        m,
                    ) implies more.contains(m) || reachable(g, m, rest[i].0) || above(
                    rest,
                    i,
                    m,
                ) by {
                    assert(stack[i].1 && step(g, stack[i].0, m));
                    if above(stack, i, m) {
                        let j = choose|j: int| i < j < stack.len() && (#[trigger] stack[j]).0 == m;
                        if j < rest.len() {
                            assert(rest[j].0 == m);
                        }
                    }
                }
                assert forall|i: int, j: int|
                    0 <= i < j < rest.len() && (#[trigger] rest[i]).1 implies reachable(
                    g,
                    rest[i].0,
                    (#[trigger] rest[j]).0,
                ) by {
                    assert(stack[i].1);
                    assert(reachable(g, stack[i].0, stack[j].0));
                }
            }
            lemma_post_run(g, seeds, rest, seen, more);
            assert forall|i: int| 0 <= i < stack.len() implies post_run(
                g,
                stack,
                seen,
                out,
            ).0.contains((#[trigger] stack[i]).0) by {
                if i < rest.len() {
                    assert(rest[i] == stack[i]);
                }
            }
        } else if seen.contains(v) {
            assert(post_basic(g, seeds, rest, seen, out));
            assert(post_marks(rest, seen, out)) by {
                assert forall|i: int| 0 <= i < rest.len() && (#[trigger] rest[i]).1 implies seen.contains(
                    rest[i].0,
                ) && !out.contains(rest[i].0) by {
                    assert(stack[i].1);
                }
                assert forall|x: Seq<char>| #[trigger] seen.contains(x) implies out.contains(x)
                    || rest.contains((x, true)) by {
                    if !out.contains(x) {
                        assert(stack.contains((x, true)));
                    }
                }
            }
            assert(post_closure(g, rest, seen)) by {
                assert forall|u: Seq<char>, x: Seq<char>|
                    seen.contains(u) && #[trigger] step(g, u, x) implies seen.contains(x)
                    || rest.contains((x, false)) by {
                    if !seen.contains(x) {
                        assert(stack.contains((x, false)));
                    }
                }
            }
            assert(post_sorted(g, rest, out)) by {
                assert forall|i: int, m: Seq<char>|
                    0 <= i < rest.len() && (#[trigger] rest[i]).1 && #[trigger] step(
                        g,
                        rest[i].0,
                        m,
                    ) implies out.contains(m) || reachable(g, m, rest[i].0) || above(
                    rest,
                    i,
                    m,
                ) by {
                    assert(stack[i].1 && step(g, stack[i].0, m));
                    if above(stack, i, m) && !out.contains(m) {
                        let j = choose|j: int| i < j < stack.len() && (#[trigger] stack[j]).0 == m;
                        if j < rest.len() {
                            assert(rest[j].0 == m);
                        } else {
                            assert(m == v);
                            assert(stack.contains((v, true)));
                            let p = rest.index_of((v, true));
                            assert(rest[p] == (v, true));
                            if p < i {
                                assert(stack[p].1);
                                assert(reachable(g, stack[p].0, stack[i].0));
                            } else if p == i {
                                lemma_reach_self(g, v);
                            }
                        }
                    }
                }
                assert forall|i: int, j: int|
                    0 <= i < j < rest.len() && (#[trigger] rest[i]).1 implies reachable(
                    g,
                    rest[i].0,
                    (#[trigger] rest[j]).0,
                ) by {
                    assert(stack[i].1);
                    assert(reachable(g, stack[i].0, stack[j].0));
                }
            }
            lemma_post_run(g, seeds, rest, seen, out);
            assert forall|i: int| 0 <= i < stack.len() implies post_run(
                g,
                stack,
                seen,
                out,
            ).0.contains((#[trigger] stack[i]).0) by {
                if i < rest.len() {
                    assert(rest[i] == stack[i]);
                }
            }
        } else {
            assert(g.has_node(stack[t].0));
            let base = rest.push((v, true));
            let next = push_pending(base, g.steps(v));
            let more = seen.push(v);
            lemma_unvisited_drops(g.nodes, seen, v);
            lemma_push_contains(seen, v);
            lemma_push_pending_shape(base, g.steps(v));
            assert(base.len() == stack.len());
            assert forall|i: int| 0 <= i < rest.len() implies #[trigger] next[i] == stack[i] by {
                assert(base[i] == rest[i]);
            }
            assert(next[t] == (v, true)) by {
                assert(base[t] == (v, true));
            }
            let vi = choose|i: int| 0 <= i < seeds.len() && #[trigger] reachable(g, seeds[i], v);
            assert(post_basic(g, seeds, next, more, out)) by {
                assert forall|i: int| 0 <= i < next.len() implies g.has_node((#[trigger] next[i]).0)
                    && reached_from(g, seeds, next[i].0) by {
                    if i < rest.len() {
                        assert(next[i] == stack[i]);
                    } else if i > t {
                        g.lemma_steps_are_nodes(v, next[i].0);
                        assert(step(g, v, next[i].0));
                        lemma_reach_step(g, seeds[vi], v, next[i].0);
                    }
                }
            }
            assert(post_marks(next, more, out)) by {
                assert forall|i: int| 0 <= i < next.len() && (#[trigger] next[i]).1 implies more.contains(
                    next[i].0,
                ) && !out.contains(next[i].0) by {
                    if i < rest.len() {
                        assert(stack[i].1);
                    }
                }
                assert forall|i: int, j: int|
                    0 <= i < j < next.len() && (#[trigger] next[i]).1 && (#[trigger] next[j]).1 implies next[i].0
                    != next[j].0 by {
                    if j < rest.len() {
                        assert(stack[i].1 && stack[j].1);
                    } else {
                        assert(j == t);
                        assert(stack[i].1);
                        assert(seen.contains(stack[i].0));
                    }
                }
                assert forall|x: Seq<char>| #[trigger] more.contains(x) implies out.contains(x)
                    || next.contains((x, true)) by {
                    if x == v {
                        assert(next[t] == (v, true));
                    } else if !out.contains(x) {
                        assert(stack.contains((x, true)));
                        let p = rest.index_of((x, true));
                        assert(next[p] == (x, true));
                    }
                }
            }
            assert(post_closure(g, next, more)) by {
                assert forall|u: Seq<char>, x: Seq<char>|
                    more.contains(u) && #[trigger] step(g, u, x) implies more.contains(x)
                    || next.contains((x, false)) by {
                    if u == v {
                        assert(g.steps(v).contains(x));
                        let j = choose|j: int|
                            base.len() <= j < base.len() + g.steps(v).len() && #[trigger] next[j] == (
                                x,
                                false,
                            );
                        assert(next[j] == (x, false));
                    } else if !seen.contains(x) {
                        assert(stack.contains((x, false)));
                        if x != v {
                            let p = rest.index_of((x, false));
                            assert(next[p] == (x, false));
                        }
                    }
                }
            }
            assert(post_sorted(g, next, out)) by {
                assert forall|i: int, m: Seq<char>|
                    0 <= i < next.len() && (#[trigger] next[i]).1 && #[trigger] step(
                        g,
                        next[i].0,
                        m,
                    ) implies out.contains(m) || reachable(g, m, next[i].0) || above(
                    next,
                    i,
                    m,
                ) by {
                    if i < rest.len() {
                        assert(stack[i].1 && step(g, stack[i].0, m));
                        if above(stack, i, m) {
                            let j = choose|j: int| i < j < stack.len() && (#[trigger] stack[j]).0 == m;
                            assert(next[j].0 == m);
                        }
                    } else {
                        assert(i == t);
                        assert(g.steps(v).contains(m));
                        let j = choose|j: int|
                            base.len() <= j < base.len() + g.steps(v).len() && #[trigger] next[j] == (
                                m,
                                false,
                            );
                        assert(next[j].0 == m);
                    }
                }
                assert forall|i: int, j: int|
                    0 <= i < j < next.len() && (#[trigger] next[i]).1 implies reachable(
                    g,
                    next[i].0,
                    (#[trigger] next[j]).0,
                ) by {
                    if i < rest.len() {
                        assert(stack[i].1);
                        assert(reachable(g, stack[i].0, stack[t].0));
                        if j < rest.len() {
                            assert(reachable(g, stack[i].0, stack[j].0));
                        } else if j > t {
                            assert(step(g, v, next[j].0));
                            lemma_reach_step(g, stack[i].0, v, next[j].0);
                        }
                    } else {
                        assert(i == t);
                        lemma_reach_self(g, v);
                        assert(step(g, v, next[j].0));
                        lemma_reach_step(g, v, v, next[j].0);
                    }
                }
            }
            lemma_post_run(g, seeds, next, more, out);
            assert forall|i: int| 0 <= i < stack.len() implies post_run(
                g,
                stack,
                seen,
                out,
            ).0.contains((#[trigger] stack[i]).0) by {
                if i < rest.len() {
                    assert(next[i] == stack[i]);
                } else {
                    assert(next[t].0 == v);
                }
            }
        }
    }
}

/// Running the post-order machine from each seed in turn ends in a state
/// in order, with an empty stack, that has seen the seeds.
pub proof fn lemma_post_order<N, E>(
    g: GraphModel<N, E>,
    seeds: Seq<Seq<char>>,
    todo: Seq<Seq<char>>,
    seen: Seq<Seq<char>>,
    out: Seq<Seq<char>>,
)
    requires
        g.inv(),
        post_ok(g, seeds, Seq::empty(), seen, out),
        forall|i: int| 0 <= i < todo.len() ==> g.has_node(#[trigger] todo[i]) && reached_from(
            g,
            seeds,
            todo[i],
        ),
    ensures
        exists|last: Seq<Seq<char>>| #[trigger]
            post_ok(g, seeds, Seq::empty(), last, post_order(g, todo, seen, out)) && (forall|
                x: Seq<char>,
            |
                seen.contains(x) || todo.contains(x) ==> #[trigger] last.contains(x)),
    decreases todo.len(),
{
    if todo.len() == 0 {
        assert(post_ok(g, seeds, Seq::empty(), seen, post_order(g, todo, seen, out)));
    } else {
        let first = seq![(todo[0], false)];
        assert(first[0] == (todo[0], false));
        assert forall|e: (Seq<char>, bool)| #[trigger] first.contains(e) implies e == (
            todo[0],
            false,
        ) by {
            let i = first.index_of(e);
        }
        assert(post_marks(first, seen, out)) by {
            assert forall|x: Seq<char>| #[trigger] seen.contains(x) implies out.contains(x)
                || first.contains((x, true)) by {
                let none = Seq::<(Seq<char>, bool)>::empty();
                if none.contains((x, true)) {
                    let i = none.index_of((x, true));
                }
            }
        }
        assert(post_closure(g, first, seen)) by {
            assert forall|u: Seq<char>, x: Seq<char>|
                seen.contains(u) && #[trigger] step(g, u, x) implies seen.contains(x)
                || first.contains((x, false)) by {
                let none = Seq::<(Seq<char>, bool)>::empty();
                if none.contains((x, false)) {
                    let i = none.index_of((x, false));
                }
            }
        }
        assert(post_ok(g, seeds, first, seen, out));
        lemma_post_run(g, seeds, first, seen, out);
        let next = post_run(g, first, seen, out);
        let rest = todo.drop_first();
        assert forall|i: int| 0 <= i < rest.len() implies g.has_node(#[trigger] rest[i])
            && reached_from(g, seeds, rest[i]) by {
            assert(rest[i] == todo[i + 1]);
        }
        lemma_post_order(g, seeds, rest, next.0, next.1);
        let last = choose|last: Seq<Seq<char>>| #[trigger]
            post_ok(g, seeds, Seq::empty(), last, post_order(g, rest, next.0, next.1)) && (forall|
                x: Seq<char>,
            |
                next.0.contains(x) || rest.contains(x) ==> #[trigger] last.contains(x));
        assert forall|x: Seq<char>| seen.contains(x) || todo.contains(x) implies #[trigger] last.contains(
            x,
        ) by {
            if todo.contains(x) {
                let i = todo.index_of(x);
                if i == 0 {
                    assert(next.0.contains(first[0].0));
                } else {
                    assert(rest[i - 1] == x);
                }
            }
        }
        assert(post_ok(g, seeds, Seq::empty(), last, post_order(g, todo, seen, out)));
    }
}

/// A post-order traversal from seeds that are nodes puts out each node
/// that is reachable from a seed, once, and nothing else.
pub proof fn law_post_order_reaches_all_once<N, E>(g: GraphModel<N, E>, seeds: Seq<Seq<char>>)
    requires
        g.inv(),
        all_known(g, seeds),
    ensures
        traversal(g, seeds, true).no_duplicates(),
        forall|x: Seq<char>| #[trigger]
            traversal(g, seeds, true).contains(x) <==> reached_from(g, seeds, x),
{
    let out = traversal(g, seeds, true);
    let last = lemma_post_order_whole(g, seeds);
    assert forall|x: Seq<char>| #[trigger] last.contains(x) implies out.contains(x) by {
        let none = Seq::<(Seq<char>, bool)>::empty();
        if none.contains((x, true)) {
            let i = none.index_of((x, true));
        }
    }
    assert(closed(g, out)) by {
        assert forall|u: Seq<char>, x: Seq<char>|
            out.contains(u) && #[trigger] step(g, u, x) implies out.contains(x) by {
            let none = Seq::<(Seq<char>, bool)>::empty();
            assert(last.contains(u));
            if none.contains((x, false)) {
                let i = none.index_of((x, false));
            }
        }
    }
    assert forall|x: Seq<char>| reached_from(g, seeds, x) implies #[trigger] out.contains(x) by {
        let i = choose|i: int| 0 <= i < seeds.len() && #[trigger] reachable(g, seeds[i], x);
        assert(seeds.contains(seeds[i]));
        assert(last.contains(seeds[i]));
        assert(out.contains(seeds[i]));
        lemma_closed_holds(g, out, seeds[i], x);
    }
}

/// The nodes that a post-order traversal from `seeds` has seen in the
/// end, with which the state is in order.
proof fn lemma_post_order_whole<N, E>(g: GraphModel<N, E>, seeds: Seq<Seq<char>>) -> (last: Seq<
    Seq<char>,
>)
    requires
        g.inv(),
        all_known(g, seeds),
    ensures
        post_ok(g, seeds, Seq::empty(), last, traversal(g, seeds, true)),
        forall|x: Seq<char>| seeds.contains(x) ==> #[trigger] last.contains(x),
{
    let empty = Seq::<Seq<char>>::empty();
    let none = Seq::<(Seq<char>, bool)>::empty();
    assert forall|i: int| 0 <= i < seeds.len() implies g.has_node(#[trigger] seeds[i])
        && reached_from(g, seeds, seeds[i]) by {
        lemma_reach_self(g, seeds[i]);
    }
    assert(post_ok(g, seeds, none, empty, empty));
    lemma_post_order(g, seeds, seeds, empty, empty);
    choose|last: Seq<Seq<char>>| #[trigger]
        post_ok(g, seeds, Seq::empty(), last, post_order(g, seeds, empty, empty)) && (forall|
            x: Seq<char>,
        |
            empty.contains(x) || seeds.contains(x) ==> #[trigger] last.contains(x))
}

/// In a post-order traversal a node comes after each node that it leads
/// to in one step, unless that node leads back to it.
pub proof fn law_post_order_descendants_first<N, E>(
    g: GraphModel<N, E>,
    seeds: Seq<Seq<char>>,
    n: Seq<char>,
    m: Seq<char>,
)
    requires
        g.inv(),
        all_known(g, seeds),
        traversal(g, seeds, true).contains(n),
        step(g, n, m),
        !reachable(g, m, n),
    ensures
        before(traversal(g, seeds, true), m, n),
{
    let last = lemma_post_order_whole(g, seeds);
}

} // verus!
