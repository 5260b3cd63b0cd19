//! Reachability, and why a finished traversal has seen everything.
//!
//! `reaches` walks the immutable shape of the arena; it is well founded
//! because every edge points at a smaller index.  The closing lemma says:
//! once the work stack has drained, a set of arrived-at nodes that satisfies
//! the traversal's bookkeeping invariants contains every node reachable from
//! any of its members — so no reachable label is missing from the trace.

use vstd::prelude::*;

use crate::explore::Exploration;
use crate::graph::Node;
use crate::graph::left_of;
use crate::graph::right_of;
use crate::graph::wf_node_at;
use crate::graph::wf_nodes;

verus! {

/// `b` can be reached from `a` along parent-to-child edges.
pub open spec fn reaches(nodes: Seq<Node>, a: int, b: int) -> bool
    decreases a,
        when 0 <= a < nodes.len() && wf_nodes(nodes)
        via reaches_decreases
{
    a == b || (match nodes[a] {
        Node::Branch { left, right, .. } => reaches(nodes, left as int, b) || reaches(
            nodes,
            right as int,
            b,
        ),
        Node::Leaf { .. } => false,
    })
}

#[via_fn]
proof fn reaches_decreases(nodes: Seq<Node>, a: int, b: int) {
    assert(wf_node_at(nodes, a));
}

/// The label `lab` occurs somewhere in the trace.
pub open spec fn trace_has_label(trace: Seq<Seq<char>>, lab: Seq<char>) -> bool {
    exists|i: int| 0 <= i < trace.len() && trace[i] == lab
}

/// The node index `x` occurs in the work stack.
pub open spec fn in_work(work: Seq<usize>, x: int) -> bool {
    exists|k: int| 0 <= k < work.len() && (#[trigger] work[k]) as int == x
}

/// The node `x` has either already been arrived at or is still scheduled.
pub open spec fn covered(work: Seq<usize>, visited: Set<int>, x: int) -> bool {
    in_work(work, x) || visited.contains(x)
}

/// Some worker is holding the withdrawn node `x`.
pub open spec fn held(holding: Seq<Option<usize>>, x: int) -> bool {
    exists|w: int|
        0 <= w < holding.len() && ((#[trigger] holding[w]) matches Some(u) && u as int == x)
}

/// The node `x` is arrived at, scheduled, or in a worker's hands.
pub open spec fn covered_any(
    work: Seq<usize>,
    holding: Seq<Option<usize>>,
    visited: Set<int>,
    x: int,
) -> bool {
    in_work(work, x) || held(holding, x) || visited.contains(x)
}

/// With no work left, the bookkeeping invariants close the visited set
/// under reachability: everything reachable from a visited node is visited.
///
/// The two hypotheses are the loop invariants of the traversal drivers,
/// specialised to an empty work stack: a visited branch has advanced past
/// `UnExplored`, and a branch past `UnExplored` has been visited and has
/// both children visited.
pub proof fn lemma_reaches_visited(
    nodes: Seq<Node>,
    st: Seq<Exploration>,
    visited: Set<int>,
    a: int,
    b: int,
)
    requires
        wf_nodes(nodes),
        st.len() == nodes.len(),
        0 <= a < nodes.len(),
        visited.contains(a),
        reaches(nodes, a, b),
        forall|j: int|
            0 <= j < nodes.len() && #[trigger] visited.contains(j) && nodes[j] is Branch ==> !(
            st[j] is UnExplored),
        forall|j: int|
            0 <= j < nodes.len() && nodes[j] is Branch && !((#[trigger] st[j]) is UnExplored)
                ==> visited.contains(left_of(nodes[j]) as int) && visited.contains(
                right_of(nodes[j]) as int,
            ),
    ensures
        visited.contains(b),
    decreases a,
{
    assert(wf_node_at(nodes, a));
    if a != b {
        match nodes[a] {
            Node::Branch { left, right, .. } => {
                assert(!(st[a] is UnExplored));
                if reaches(nodes, left as int, b) {
                    lemma_reaches_visited(nodes, st, visited, left as int, b);
                } else {
                    lemma_reaches_visited(nodes, st, visited, right as int, b);
                }
            },
            Node::Leaf { .. } => {
            },
        }
    }
}

} // verus!
