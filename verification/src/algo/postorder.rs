//! Post-order traversal.

use crate::algo::dfs::{all_known, dfs, traversal};
use crate::graph::Graph;
use vstd::prelude::*;

verus! {

/// The nodes in post-order from the seeds `vs`: each node after the nodes
/// that are first reached from it. Empty where a seed is no node.
pub fn postorder<GL: Default, N: Default + Clone, E: Default + Clone>(
    g: &mut Graph<GL, N, E>,
    vs: &Vec<String>,
) -> (r: Vec<String>)
    requires
        old(g).wf(),
    ensures
        *final(g) == *old(g),
        r.deep_view() == if all_known(old(g)@, vs.deep_view()) {
            traversal(old(g)@, vs.deep_view(), true)
        } else {
            Seq::empty()
        },
{
    match dfs(g, vs, "post") {
        Ok(t) => t,
        _ => {
            let r: Vec<String> = Vec::new();
            proof {
                assert(r.deep_view() =~= Seq::<Seq<char>>::empty());
            }
            r
        },
    }
}

} // verus!
