//! Member nodes and read-only reporting helpers over them.

use crate::params::Params;
use crate::prefix::Prefix;
use vstd::prelude::*;

verus! {

/// One member node: its network name (an address) and its age.
#[derive(Clone, Copy, PartialEq, Eq, Structural, Debug)]
pub struct Node {
    /// The node's address; decides which section the node belongs to.
    pub name: u64,
    /// How long the node has been around; only read for reporting.
    pub age: u8,
}

/// A node old enough to be counted in capacity projections.
pub open spec fn is_adult(n: Node, params: Params) -> bool {
    n.age >= params.adult_age
}

/// How many of `ns` are adults whose name lies under `p`.
pub open spec fn spec_count_matching_adults(ns: Seq<Node>, p: Prefix, params: Params) -> nat
    decreases ns.len(),
{
    if ns.len() == 0 {
        0
    } else {
        spec_count_matching_adults(ns.drop_last(), p, params) + if p.covers(ns.last().name)
            && is_adult(ns.last(), params) {
            1nat
        } else {
            0nat
        }
    }
}

/// Count the adult nodes among `nodes` whose name lies under `prefix`.
pub fn count_matching_adults(params: &Params, prefix: Prefix, nodes: &Vec<Node>) -> (r: u64)
    requires
        prefix.wf(),
    ensures
        r == spec_count_matching_adults(nodes@, prefix, *params),
{
    let mut count: u64 = 0;
    let mut i: usize = 0;
    while i < nodes.len()
        invariant
            prefix.wf(),
            i <= nodes@.len(),
            count <= i,
            count == spec_count_matching_adults(nodes@.subrange(0, i as int), prefix, *params),
        decreases nodes@.len() - i,
    {
        let n = nodes[i];
        proof {
            assert(nodes@.subrange(0, i + 1).drop_last() =~= nodes@.subrange(0, i as int));
        }
        if prefix.matches(n.name) && n.age >= params.adult_age {
            count = count + 1;
        }
        i = i + 1;
    }
    proof {
        assert(nodes@.subrange(0, nodes@.len() as int) =~= nodes@);
    }
    count
}

} // verus!
