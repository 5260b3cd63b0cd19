//! The traversal drivers.
//!
//! `run` is the mathematical meaning of draining the work stack: withdraw
//! the most recent entry, take one step of the state machine on it, repeat
//! until the stack is empty, collecting one label per arrival.  It is total
//! because the potential `phi` strictly decreases at every withdrawal.
//!
//! `explore_sequential` executes `run` directly and is the deterministic
//! oracle that the multi-worker traversal (the `concurrent` module) is
//! measured against.

use vstd::prelude::*;

use crate::explore::Exploration;
use crate::explore::step_pushes;
use crate::explore::step_status;
use crate::graph::Maze;
use crate::graph::Node;
use crate::graph::left_of;
use crate::graph::node_label;
use crate::graph::right_of;
use crate::graph::wf_node_at;
use crate::graph::wf_nodes;
use crate::measure::branch_count;
use crate::measure::lemma_pot_sum_le;
use crate::measure::lemma_pot_sum_update;
use crate::measure::phi;
use crate::measure::pot_sum;
use crate::reach::covered;
use crate::reach::in_work;
use crate::reach::lemma_reaches_visited;
use crate::reach::reaches;
use crate::reach::trace_has_label;

verus! {

/// Every branch starts out `UnExplored`.
pub open spec fn init_status(len: nat) -> Seq<Exploration> {
    Seq::new(len, |i: int| Exploration::UnExplored)
}

/// Every entry of the work stack is a node of the arena.
pub open spec fn work_valid(nodes: Seq<Node>, work: Seq<usize>) -> bool {
    forall|k: int| 0 <= k < work.len() ==> ((#[trigger] work[k]) as int) < nodes.len()
}

/// The trace produced by draining the work stack: one step of the state
/// machine per withdrawal, most recent entry first.
pub open spec fn run(nodes: Seq<Node>, st: Seq<Exploration>, work: Seq<usize>) -> Seq<Seq<char>>
    decreases phi(nodes, st, work),
        when st.len() == nodes.len() && work_valid(nodes, work) && wf_nodes(nodes)
        via run_decreases
{
    if work.len() == 0 {
        Seq::empty()
    } else {
        let n = work.last() as int;
        seq![node_label(nodes[n])] + run(
            nodes,
            step_status(nodes, st, n),
            work.drop_last() + step_pushes(nodes, st, n),
        )
    }
}

#[via_fn]
proof fn run_decreases(nodes: Seq<Node>, st: Seq<Exploration>, work: Seq<usize>) {
    if work.len() != 0 {
        lemma_step_frame(nodes, st, work);
    }
}

/// One withdrawal keeps the state well formed and strictly lowers `phi`.
pub proof fn lemma_step_frame(nodes: Seq<Node>, st: Seq<Exploration>, work: Seq<usize>)
    requires
        wf_nodes(nodes),
        st.len() == nodes.len(),
        work_valid(nodes, work),
        work.len() > 0,
    ensures
        ({
            let n = work.last() as int;
            let st2 = step_status(nodes, st, n);
            let work2 = work.drop_last() + step_pushes(nodes, st, n);
            st2.len() == nodes.len() && work_valid(nodes, work2) && phi(nodes, st2, work2) < phi(
                nodes,
                st,
                work,
            )
        }),
{
    let n = work.last() as int;
    let st2 = step_status(nodes, st, n);
    let pushes = step_pushes(nodes, st, n);
    let work2 = work.drop_last() + pushes;
    assert(0 <= n < nodes.len()) by {
        assert(((work[work.len() - 1]) as int) < nodes.len());
    }
    assert(wf_node_at(nodes, n));
    assert(work_valid(nodes, work2)) by {
        assert forall|k: int| 0 <= k < work2.len() implies ((#[trigger] work2[k]) as int)
            < nodes.len() by {
            if k < work.len() - 1 {
                assert(work2[k] == work[k]);
            }
        }
    }
    match nodes[n] {
        Node::Branch { left, right, .. } => {
            match st[n] {
                Exploration::UnExplored => {
                    lemma_pot_sum_update(
                        nodes,
                        st,
                        n,
                        Exploration::PartiallyExplored,
                        nodes.len() as int,
                    );
                },
                Exploration::PartiallyExplored => {
                    lemma_pot_sum_update(nodes, st, n, Exploration::Explored, nodes.len() as int);
                },
                Exploration::Explored => {
                },
            }
        },
        Node::Leaf { .. } => {
        },
    }
}

/// One arrival keeps the traversal's books straight: after withdrawing
/// `node` and taking one step on it, the arrived-at set grown by `node`
/// still satisfies every bookkeeping invariant, and anything covered
/// before is covered still.
proof fn lemma_after_arrival(
    m: Seq<Node>,
    st0: Seq<Exploration>,
    w0: Seq<usize>,
    v0: Set<int>,
    t0: Seq<Seq<char>>,
    node: usize,
)
    requires
        wf_nodes(m),
        st0.len() == m.len(),
        work_valid(m, w0),
        w0.len() > 0,
        node == w0.last(),
        forall|n: int|
            #[trigger] v0.contains(n) ==> 0 <= n < m.len() && trace_has_label(
                t0,
                node_label(m[n]),
            ),
        forall|j: int|
            0 <= j < m.len() && #[trigger] v0.contains(j) && m[j] is Branch ==> !(st0[j]
                is UnExplored),
        forall|j: int|
            0 <= j < m.len() && m[j] is Branch && !((#[trigger] st0[j]) is UnExplored)
                ==> v0.contains(j) && covered(w0, v0, left_of(m[j]) as int) && covered(
                w0,
                v0,
                right_of(m[j]) as int,
            ),
    ensures
        ({
            let n = node as int;
            let st2 = step_status(m, st0, n);
            let work2 = w0.drop_last() + step_pushes(m, st0, n);
            let v2 = v0.insert(n);
            let t2 = t0.push(node_label(m[n]));
            (forall|x: int|
                #[trigger] v2.contains(x) ==> 0 <= x < m.len() && trace_has_label(
                    t2,
                    node_label(m[x]),
                )) && (forall|j: int|
                0 <= j < m.len() && #[trigger] v2.contains(j) && m[j] is Branch ==> !(st2[j]
                    is UnExplored)) && (forall|j: int|
                0 <= j < m.len() && m[j] is Branch && !((#[trigger] st2[j]) is UnExplored)
                    ==> v2.contains(j) && covered(work2, v2, left_of(m[j]) as int) && covered(
                    work2,
                    v2,
                    right_of(m[j]) as int,
                )) && (forall|x: int|
                #[trigger] covered(w0, v0, x) ==> covered(work2, v2, x))
        }),
{
    let n = node as int;
    let st2 = step_status(m, st0, n);
    let pushes = step_pushes(m, st0, n);
    let work2 = w0.drop_last() + pushes;
    let v2 = v0.insert(n);
    let t2 = t0.push(node_label(m[n]));
    assert(0 <= n < m.len()) by {
        assert(((w0[w0.len() - 1]) as int) < m.len());
    }
    assert(wf_node_at(m, n));
    // anything covered before the step is covered after it
    assert forall|x: int| #[trigger] covered(w0, v0, x) implies covered(work2, v2, x) by {
        if !v0.contains(x) {
            let k = choose|k: int| 0 <= k < w0.len() && ((#[trigger] w0[k]) as int) == x;
            if k < w0.len() - 1 {
                assert(work2[k] == w0[k]);
                assert(in_work(work2, x));
            } else {
                assert(x == n);
            }
        }
    }
    // every arrived-at node is in range and traced
    assert forall|x: int| #[trigger] v2.contains(x) implies 0 <= x < m.len() && trace_has_label(
        t2,
        node_label(m[x]),
    ) by {
        if x == n {
            assert(t2[t0.len() as int] == node_label(m[n]));
        } else {
            let i = choose|i: int| 0 <= i < t0.len() && t0[i] == node_label(m[x]);
            assert(t2[i] == node_label(m[x]));
        }
    }
    // an arrived-at branch has advanced
    assert forall|j: int|
        0 <= j < m.len() && #[trigger] v2.contains(j) && m[j] is Branch implies !(st2[j]
        is UnExplored) by {}
    // an advanced branch is arrived at and its children are covered
    assert forall|j: int|
        0 <= j < m.len() && m[j] is Branch && !((#[trigger] st2[j]) is UnExplored) implies v2
        .contains(j) && covered(work2, v2, left_of(m[j]) as int) && covered(
        work2,
        v2,
        right_of(m[j]) as int,
    ) by {
        if j == n {
            if st0[n] is UnExplored {
                let base = w0.drop_last().len() as int;
                assert(work2[base] == right_of(m[n]));
                assert(work2[base + 1] == left_of(m[n]));
                assert(in_work(work2, left_of(m[n]) as int));
                assert(in_work(work2, right_of(m[n]) as int));
            } else {
                assert(covered(w0, v0, left_of(m[j]) as int));
                assert(covered(w0, v0, right_of(m[j]) as int));
            }
        } else {
            assert(st2[j] == st0[j]);
            assert(covered(w0, v0, left_of(m[j]) as int));
            assert(covered(w0, v0, right_of(m[j]) as int));
        }
    }
}

/// The deterministic trace of the whole traversal from `root`.
pub open spec fn seq_trace(nodes: Seq<Node>, root: usize) -> Seq<Seq<char>> {
    run(nodes, init_status(nodes.len()), seq![root])
}

/// Single-worker traversal: the reference semantics.
///
/// The result is exactly `seq_trace`; it contains the label of every node
/// reachable from `root`; and its length — the number of arrivals, and so
/// of steps taken — is bounded by one plus three per branch of the arena.
pub fn explore_sequential(maze: &Maze, root: usize) -> (trace: Vec<String>)
    requires
        maze.wf(),
        root < maze@.len(),
    ensures
        trace.deep_view() == seq_trace(maze@, root),
        forall|n: int|
            0 <= n < maze@.len() && reaches(maze@, root as int, n) ==> trace_has_label(
                trace.deep_view(),
                node_label(maze@[n]),
            ),
        trace.deep_view().len() <= 1 + 3 * branch_count(maze@, maze@.len() as int),
{
    let ghost m = maze@;
    let n_total = maze.node_count();
    let mut status: Vec<Exploration> = Vec::new();
    while status.len() < n_total
        invariant
            status@.len() <= n_total,
            n_total == m.len(),
            status@ == init_status(status@.len() as nat),
        decreases n_total - status.len(),
    {
        status.push(Exploration::UnExplored);
        proof {
            assert(status@ =~= init_status(status@.len() as nat));
        }
    }
    let mut work: Vec<usize> = Vec::new();
    work.push(root);
    let mut trace: Vec<String> = Vec::new();
    let ghost mut visited: Set<int> = Set::empty();
    proof {
        assert(work@ =~= seq![root]);
        assert(trace.deep_view() + run(m, status@, work@) =~= seq_trace(m, root));
        assert(in_work(work@, root as int)) by {
            assert((work@[0] as int) == root as int);
        }
    }
    while work.len() != 0
        invariant
            wf_nodes(m),
            m == maze@,
            root < m.len(),
            status@.len() == m.len(),
            work_valid(m, work@),
            trace.deep_view() + run(m, status@, work@) == seq_trace(m, root),
            forall|n: int|
                #[trigger] visited.contains(n) ==> 0 <= n < m.len() && trace_has_label(
                    trace.deep_view(),
                    node_label(m[n]),
                ),
            forall|j: int|
                0 <= j < m.len() && #[trigger] visited.contains(j) && m[j] is Branch ==> !(
                status@[j] is UnExplored),
            forall|j: int|
                0 <= j < m.len() && m[j] is Branch && !((#[trigger] status@[j]) is UnExplored)
                    ==> visited.contains(j) && covered(work@, visited, left_of(m[j]) as int)
                    && covered(work@, visited, right_of(m[j]) as int),
            covered(work@, visited, root as int),
            trace.deep_view().len() + phi(m, status@, work@) <= 1 + pot_sum(
                m,
                init_status(m.len()),
                m.len() as int,
            ),
        decreases phi(m, status@, work@),
    {
        let ghost st0 = status@;
        let ghost w0 = work@;
        let ghost t0 = trace.deep_view();
        let ghost v0 = visited;
        proof {
            lemma_step_frame(m, st0, w0);
            assert(((w0[w0.len() - 1]) as int) < m.len());
        }
        let node = work.pop().unwrap();
        assert(node == w0.last());
        maze.explore(node, &mut status, &mut work, &mut trace);
        proof {
            let n = node as int;
            visited = visited.insert(n);
            assert(work@ =~= w0.drop_last() + step_pushes(m, st0, n));
            assert(run(m, st0, w0) == seq![node_label(m[n])] + run(m, status@, work@));
            assert(trace.deep_view() + run(m, status@, work@) =~= t0 + run(m, st0, w0));
            lemma_after_arrival(m, st0, w0, v0, t0, node);
            assert(covered(w0, v0, root as int));
        }
    }
    proof {
        assert(trace.deep_view() =~= seq_trace(m, root));
        lemma_pot_sum_le(m, init_status(m.len()), m.len() as int);
        assert forall|n: int|
            0 <= n < m.len() && reaches(m, root as int, n) implies trace_has_label(
            trace.deep_view(),
            node_label(m[n]),
        ) by {
            assert(visited.contains(root as int));
            lemma_reaches_visited(m, status@, visited, root as int, n);
        }
    }
    trace
}

} // verus!
