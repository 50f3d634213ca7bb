//! Laws of the search tree, stated once over any well-formed arena. The
//! quantified invariants hold at all times because every tree operation
//! preserves well-formedness.

use vstd::prelude::*;
use crate::tree::{Node, wf, wf_node, wf_children};

verus! {

/// Children uniqueness: at all times and for every node, the entering moves
/// of its children are pairwise distinct.
pub proof fn lemma_children_moves_unique(t: Seq<Node>, i: int, k1: int, k2: int)
    requires
        wf(t),
        0 <= i < t.len(),
        0 <= k1 < t[i].children@.len(),
        0 <= k2 < t[i].children@.len(),
        k1 != k2,
    ensures
        t[t[i].children@[k1] as int].mov != t[t[i].children@[k2] as int].mov,
{
    assert(wf_children(t, i));
}

/// Availability dominates visits: for every non-root node at any time, the
/// availability count is at least the visit count.
pub proof fn lemma_availability_dominates_visits(t: Seq<Node>, i: int)
    requires
        wf(t),
        1 <= i < t.len(),
    ensures
        t[i].statistics.availability_count >= t[i].statistics.visit_count,
{
    assert(wf_node(t, i));
}

/// Following parent links from `i` stays in bounds, strictly decreases, and
/// ends at the root.
pub open spec fn parent_chain_reaches_root(t: Seq<Node>, i: int) -> bool
    decreases (if i <= 0 { 0int } else { i }),
{
    if i == 0 {
        true
    } else if 0 < i < t.len() && t[i].parent is Some && t[i].parent.unwrap() < i {
        parent_chain_reaches_root(t, t[i].parent.unwrap() as int)
    } else {
        false
    }
}

/// No parent cycles: walking `parent` from any node terminates at the root.
pub proof fn lemma_no_parent_cycles(t: Seq<Node>, i: int)
    requires
        wf(t),
        0 <= i < t.len(),
    ensures
        parent_chain_reaches_root(t, i),
    decreases i,
{
    if i > 0 {
        assert(wf_node(t, i));
        lemma_no_parent_cycles(t, t[i].parent.unwrap() as int);
    }
}

} // verus!
