//! The per-node exploration state machine.
//!
//! Every branch carries a three-state status; `Maze::explore` is one atomic
//! step of the machine on one node, exactly the transition table of the
//! design:
//!
//! * `UnExplored`: record the label, move to `PartiallyExplored`, push the
//!   right child and then the left child onto the work stack;
//! * `PartiallyExplored`: record the label, move to `Explored`, push nothing;
//! * `Explored`: record the label only;
//! * a leaf: record the label only — a leaf has no status and no children.
//!
//! The status only ever moves forward in the order `UnExplored`,
//! `PartiallyExplored`, `Explored`; the spec functions `step_status` and
//! `step_pushes` pin the step down completely, and the traversal drivers are
//! specified in terms of them.

use vstd::prelude::*;
use vstd::pervasive::VecAdditionalExecFns;

use crate::graph::Maze;
use crate::graph::Node;
use crate::graph::node_label;

verus! {

/// Exploration status of a branch.  A leaf has no status: it is fully known
/// from the start and is recorded anew on every arrival.
#[derive(Clone, Copy, Debug, PartialEq, Eq, Structural)]
pub enum Exploration {
    /// Fully explored: both children have been handed out as work.
    Explored,
    /// First arrival done: the children are already scheduled.
    PartiallyExplored,
    /// Not arrived at yet.
    UnExplored,
}

/// How far along the forward order `UnExplored`, `PartiallyExplored`,
/// `Explored` a status stands.
pub open spec fn rank(s: Exploration) -> nat {
    match s {
        Exploration::UnExplored => 0,
        Exploration::PartiallyExplored => 1,
        Exploration::Explored => 2,
    }
}

/// The statuses after one step on node `n`: a branch advances one state
/// (and then stays at `Explored`); everything else is untouched.
pub open spec fn step_status(nodes: Seq<Node>, st: Seq<Exploration>, n: int) -> Seq<Exploration> {
    match nodes[n] {
        Node::Branch { .. } => match st[n] {
            Exploration::UnExplored => st.update(n, Exploration::PartiallyExplored),
            Exploration::PartiallyExplored => st.update(n, Exploration::Explored),
            Exploration::Explored => st,
        },
        Node::Leaf { .. } => st,
    }
}

/// The work items one step on node `n` appends to the work stack: the right
/// child and then the left child on a branch's first arrival, nothing
/// otherwise.  The left child, pushed last, is withdrawn first.
pub open spec fn step_pushes(nodes: Seq<Node>, st: Seq<Exploration>, n: int) -> Seq<usize> {
    match nodes[n] {
        Node::Branch { left, right, .. } => if st[n] is UnExplored {
            seq![right, left]
        } else {
            Seq::empty()
        },
        Node::Leaf { .. } => Seq::empty(),
    }
}

impl Maze {
    /// One arrival at the node `node`: the atomic critical section of the
    /// traversal.  Reads the node's status, appends the node's label to
    /// `trace`, advances the status, and appends any produced work to
    /// `work` — all as stated by `step_status` and `step_pushes`.
    ///
    /// The label is appended on *every* arrival, one trace entry per
    /// arrival; the status never moves backward; and an arrival at a leaf
    /// changes neither the statuses nor the work stack.
    pub fn explore(
        &self,
        node: usize,
        status: &mut Vec<Exploration>,
        work: &mut Vec<usize>,
        trace: &mut Vec<String>,
    )
        requires
            node < self@.len(),
            old(status)@.len() == self@.len(),
        ensures
            final(status)@ == step_status(self@, old(status)@, node as int),
            final(work)@ == old(work)@ + step_pushes(self@, old(status)@, node as int),
            final(trace).deep_view() == old(trace).deep_view().push(
                node_label(self@[node as int]),
            ),
            final(status)@.len() == old(status)@.len(),
            forall|j: int|
                0 <= j < old(status)@.len() ==> rank(old(status)@[j]) <= rank(
                    #[trigger] final(status)@[j],
                ),
            self@[node as int] is Leaf ==> (final(status)@ == old(status)@ && final(work)@ == old(
                work,
            )@),
    {
        let ghost pushes = step_pushes(self@, old(status)@, node as int);
        match self.node_ref(node) {
            Node::Branch { label, left, right } => {
                let current = status[node];
                match current {
                    Exploration::UnExplored => {
                        status.set(node, Exploration::PartiallyExplored);
                        trace.push(label.clone());
                        work.push(*right);
                        work.push(*left);
                        proof {
                            assert(work@ =~= old(work)@ + pushes);
                        }
                    },
                    Exploration::PartiallyExplored => {
                        status.set(node, Exploration::Explored);
                        trace.push(label.clone());
                        proof {
                            assert(work@ =~= old(work)@ + pushes);
                        }
                    },
                    Exploration::Explored => {
                        trace.push(label.clone());
                        proof {
                            assert(work@ =~= old(work)@ + pushes);
                        }
                    },
                }
            },
            Node::Leaf { label } => {
                trace.push(label.clone());
                proof {
                    assert(work@ =~= old(work)@ + pushes);
                }
            },
        }
        proof {
            assert(trace.deep_view() =~= old(trace).deep_view().push(
                node_label(self@[node as int]),
            ));
        }
    }
}

} // verus!
