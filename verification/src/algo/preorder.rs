//! Pre-order traversal.

use crate::algo::dfs::{all_known, dfs, traversal};
use crate::graph::Graph;
use vstd::prelude::*;

verus! {

/// The nodes in pre-order from the seeds `vs`: each node before the nodes
/// that are first reached from it. Empty where a seed is no node.
pub fn preorder<GL: Default, N: Default + Clone, E: Default + Clone>(
    g: &mut Graph<GL, N, E>,
    vs: &Vec<String>,
) -> (r: Vec<String>)
    requires
        old(g).wf(),
    ensures
        *final(g) == *old(g),
        r.deep_view() == if all_known(old(g)@, vs.deep_view()) {
            traversal(old(g)@, vs.deep_view(), false)
        } else {
            Seq::empty()
        },
{
    proof {
        reveal_strlit("pre");
        reveal_strlit("post");
        assert("pre"@ != "post"@) by {
            assert("pre"@.len() == 3);
            assert("post"@.len() == 4);
        }
    }
    match dfs(g, vs, "pre") {
        Ok(t) => t,
        _ => {
            let r: Vec<String> = Vec::new();
            proof {
                assert(r.deep_view() =~= Seq::<Seq<char>>::empty());
            }
            r
        },
    }
}

} // verus!
