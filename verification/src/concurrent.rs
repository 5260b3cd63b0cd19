//! The multi-worker traversal protocol.
//!
//! `explore_concurrent` is the verified model of a pool of workers sharing
//! one work stack and one graph.  A worker is either idle, holding a node it
//! has withdrawn, or exited.  One scheduled event lets one worker move:
//!
//! * an idle worker withdraws the most recent work item, or exits for good
//!   the moment it observes the stack empty;
//! * a holding worker runs the node's critical section (`Maze::explore`)
//!   and goes idle again.
//!
//! The interleaving is an input, the `schedule`; every contract below holds
//! for every schedule and every worker count, so it holds for whatever
//! order a real thread pool would produce.  Withdrawing and exploring are
//! separate events, which is exactly the window in which workers overtake
//! one another; with a single worker no overtaking is possible and the
//! trace collapses to the sequential one.

use vstd::prelude::*;
use vstd::multiset::Multiset;
use vstd::multiset::group_multiset_axioms;
use vstd::multiset::lemma_multiset_empty_len;
use vstd::pervasive::VecAdditionalExecFns;
use vstd::seq_lib::group_to_multiset_ensures;
use vstd::seq_lib::lemma_multiset_commutative;

use crate::explore::Exploration;
use crate::explore::step_pushes;
use crate::explore::step_status;
use crate::graph::Maze;
use crate::graph::Node;
use crate::graph::left_of;
use crate::graph::node_label;
use crate::graph::right_of;
use crate::graph::wf_node_at;
use crate::graph::wf_nodes;
use crate::confluence::lemma_run_multiset;
use crate::measure::branch_count;
use crate::measure::held_count;
use crate::measure::held_items;
use crate::measure::lemma_held_items_has;
use crate::measure::lemma_held_items_none;
use crate::measure::lemma_held_items_update;
use crate::measure::opt_items;
use crate::measure::idle_count;
use crate::measure::lemma_held_count_update;
use crate::measure::lemma_held_count_zero;
use crate::measure::lemma_idle_count_update_exited;
use crate::measure::lemma_idle_count_update_holding;
use crate::measure::lemma_live_count_full;
use crate::measure::lemma_live_count_pos;
use crate::measure::lemma_live_count_update;
use crate::measure::lemma_live_count_zero;
use crate::measure::lemma_pot_sum_le;
use crate::measure::lemma_pot_sum_update;
use crate::measure::live_count;
use crate::measure::phi;
use crate::measure::pot_sum;
use crate::reach::covered_any;
use crate::reach::held;
use crate::reach::in_work;
use crate::reach::lemma_reaches_visited;
use crate::reach::reaches;
use crate::reach::trace_has_label;
use crate::traversal::init_status;
use crate::traversal::run;
use crate::traversal::seq_trace;
use crate::traversal::work_valid;

verus! {

/// Exploring a held node never raises the potential: the work it appends
/// is paid for by the status it advances.
proof fn lemma_explore_phi(m: Seq<Node>, st0: Seq<Exploration>, work0: Seq<usize>, node: usize)
    requires
        wf_nodes(m),
        st0.len() == m.len(),
        work_valid(m, work0),
        (node as int) < m.len(),
    ensures
        ({
            let n = node as int;
            let st2 = step_status(m, st0, n);
            let work2 = work0 + step_pushes(m, st0, n);
            st2.len() == m.len() && work_valid(m, work2) && phi(m, st2, work2) <= phi(
                m,
                st0,
                work0,
            )
        }),
{
    let n = node as int;
    let st2 = step_status(m, st0, n);
    let pushes = step_pushes(m, st0, n);
    let work2 = work0 + pushes;
    assert(wf_node_at(m, n));
    assert(work_valid(m, work2)) by {
        assert forall|k: int| 0 <= k < work2.len() implies ((#[trigger] work2[k]) as int)
            < m.len() by {
            if k < work0.len() {
                assert(work2[k] == work0[k]);
            }
        }
    }
    match m[n] {
        Node::Branch { .. } => {
            match st0[n] {
                Exploration::UnExplored => {
                    lemma_pot_sum_update(m, st0, n, Exploration::PartiallyExplored, m.len() as int);
                },
                Exploration::PartiallyExplored => {
                    lemma_pot_sum_update(m, st0, n, Exploration::Explored, m.len() as int);
                },
                Exploration::Explored => {
                },
            }
        },
        Node::Leaf { .. } => {
        },
    }
}

/// Withdrawing the top of the stack into a worker's hands keeps every node
/// covered: the withdrawn node is now held, everything else stays where it
/// was.
proof fn lemma_after_withdraw(
    work0: Seq<usize>,
    h0: Seq<Option<usize>>,
    v: Set<int>,
    widx: int,
    node: usize,
)
    requires
        work0.len() > 0,
        node == work0.last(),
        0 <= widx < h0.len(),
        h0[widx] is None,
    ensures
        forall|x: int|
            #[trigger] covered_any(work0, h0, v, x) ==> covered_any(
                work0.drop_last(),
                h0.update(widx, Some(node)),
                v,
                x,
            ),
{
    let w2 = work0.drop_last();
    let h2 = h0.update(widx, Some(node));
    assert forall|x: int| #[trigger] covered_any(work0, h0, v, x) implies covered_any(
        w2,
        h2,
        v,
        x,
    ) by {
        if in_work(work0, x) {
            let k = choose|k: int| 0 <= k < work0.len() && ((#[trigger] work0[k]) as int) == x;
            if k < work0.len() - 1 {
                assert(w2[k] == work0[k]);
                assert(in_work(w2, x));
            } else {
                assert((h2[widx] matches Some(u) && u as int == x));
                assert(held(h2, x));
            }
        } else if held(h0, x) {
            let w = choose|w: int|
                0 <= w < h0.len() && ((#[trigger] h0[w]) matches Some(u) && u as int == x);
            assert(h2[w] == h0[w]);
            assert(held(h2, x));
        }
    }
}

/// One arrival at a held node keeps the books straight, as
/// `lemma_after_arrival` does for the single-worker loop: the arrived-at
/// set grown by the node satisfies every bookkeeping invariant again, and
/// whatever was covered stays covered.
proof fn lemma_after_arrival_held(
    m: Seq<Node>,
    st0: Seq<Exploration>,
    work0: Seq<usize>,
    h0: Seq<Option<usize>>,
    v0: Set<int>,
    t0: Seq<Seq<char>>,
    widx: int,
    node: usize,
)
    requires
        wf_nodes(m),
        st0.len() == m.len(),
        work_valid(m, work0),
        0 <= widx < h0.len(),
        h0[widx] == Some(node),
        (node as int) < m.len(),
        forall|x: int|
            #[trigger] v0.contains(x) ==> 0 <= x < m.len() && trace_has_label(
                t0,
                node_label(m[x]),
            ),
        forall|j: int|
            0 <= j < m.len() && #[trigger] v0.contains(j) && m[j] is Branch ==> !(st0[j]
                is UnExplored),
        forall|j: int|
            0 <= j < m.len() && m[j] is Branch && !((#[trigger] st0[j]) is UnExplored)
                ==> v0.contains(j) && covered_any(work0, h0, v0, left_of(m[j]) as int)
                && covered_any(work0, h0, v0, right_of(m[j]) as int),
    ensures
        ({
            let n = node as int;
            let st2 = step_status(m, st0, n);
            let work2 = work0 + step_pushes(m, st0, n);
            let h2 = h0.update(widx, None);
            let v2 = v0.insert(n);
            let t2 = t0.push(node_label(m[n]));
            (forall|x: int|
                #[trigger] v2.contains(x) ==> 0 <= x < m.len() && trace_has_label(
                    t2,
                    node_label(m[x]),
                )) && (forall|j: int|
                0 <= j < m.len() && #[trigger] v2.contains(j) && m[j] is Branch ==> !(st2[j]
                    is UnExplored)) && (forall|j: int|
                0 <= j < m.len() && m[j] is Branch && !((#[trigger] st2[j]) is UnExplored)
                    ==> v2.contains(j) && covered_any(work2, h2, v2, left_of(m[j]) as int)
                    && covered_any(work2, h2, v2, right_of(m[j]) as int)) && (forall|x: int|
                #[trigger] covered_any(work0, h0, v0, x) ==> covered_any(work2, h2, v2, x))
        }),
{
    let n = node as int;
    let st2 = step_status(m, st0, n);
    let pushes = step_pushes(m, st0, n);
    let work2 = work0 + pushes;
    let h2 = h0.update(widx, None);
    let v2 = v0.insert(n);
    let t2 = t0.push(node_label(m[n]));
    assert(wf_node_at(m, n));
    // anything covered before the arrival is covered after it
    assert forall|x: int| #[trigger] covered_any(work0, h0, v0, x) implies covered_any(
        work2,
        h2,
        v2,
        x,
    ) by {
        if in_work(work0, x) {
            let k = choose|k: int| 0 <= k < work0.len() && ((#[trigger] work0[k]) as int) == x;
            assert(work2[k] == work0[k]);
            assert(in_work(work2, x));
        } else if held(h0, x) {
            let w = choose|w: int|
                0 <= w < h0.len() && ((#[trigger] h0[w]) matches Some(u) && u as int == x);
            if w == widx {
                assert(x == n);
            } else {
                assert(h2[w] == h0[w]);
                assert(held(h2, x));
            }
        }
    }
    // every arrived-at node is in range and traced
    assert forall|x: int| #[trigger] v2.contains(x) implies 0 <= x < m.len() && trace_has_label(
        t2,
        node_label(m[x]),
    ) by {
        if x == n {
            assert(t2[t0.len() as int] == node_label(m[n]));
        } else {
            let i = choose|i: int| 0 <= i < t0.len() && t0[i] == node_label(m[x]);
            assert(t2[i] == node_label(m[x]));
        }
    }
    // an arrived-at branch has advanced
    assert forall|j: int|
        0 <= j < m.len() && #[trigger] v2.contains(j) && m[j] is Branch implies !(st2[j]
        is UnExplored) by {}
    // an advanced branch is arrived at and its children are covered
    assert forall|j: int|
        0 <= j < m.len() && m[j] is Branch && !((#[trigger] st2[j]) is UnExplored) implies v2
        .contains(j) && covered_any(work2, h2, v2, left_of(m[j]) as int) && covered_any(
        work2,
        h2,
        v2,
        right_of(m[j]) as int,
    ) by {
        if j == n {
            if st0[n] is UnExplored {
                let base = work0.len() as int;
                assert(work2[base] == right_of(m[n]));
                assert(work2[base + 1] == left_of(m[n]));
                assert(in_work(work2, left_of(m[n]) as int));
                assert(in_work(work2, right_of(m[n]) as int));
            } else {
                assert(covered_any(work0, h0, v0, left_of(m[j]) as int));
                assert(covered_any(work0, h0, v0, right_of(m[j]) as int));
            }
        } else {
            assert(st2[j] == st0[j]);
            assert(covered_any(work0, h0, v0, left_of(m[j]) as int));
            assert(covered_any(work0, h0, v0, right_of(m[j]) as int));
        }
    }
}

/// Multi-worker traversal from `root`.
///
/// `worker_count` workers (at least one) share the work stack; `schedule`
/// picks which worker moves at each event, falling back to the
/// lowest-numbered live worker once it is used up, so any finite schedule
/// describes a complete run.  The trace is the merged append-only log, one
/// entry per arrival.
///
/// For every schedule: a single worker reproduces the sequential trace
/// exactly; the trace holds the same multiset of labels as the sequential
/// trace — the same labels, each the same number of times, in some
/// interleaved order; and the run ends — all workers exit — after at most
/// one arrival plus three per branch, whatever the interleaving.
pub fn explore_concurrent(
    maze: &Maze,
    root: usize,
    worker_count: usize,
    schedule: &Vec<usize>,
) -> (trace: Vec<String>)
    requires
        maze.wf(),
        root < maze@.len(),
        worker_count >= 1,
    ensures
        worker_count == 1 ==> trace.deep_view() == seq_trace(maze@, root),
        trace.deep_view().to_multiset() == seq_trace(maze@, root).to_multiset(),
        forall|n: int|
            0 <= n < maze@.len() && reaches(maze@, root as int, n) ==> trace_has_label(
                trace.deep_view(),
                node_label(maze@[n]),
            ),
        trace.deep_view().len() <= 1 + 3 * branch_count(maze@, maze@.len() as int),
{
    let ghost m = maze@;
    let n_total = maze.node_count();
    let mut status: Vec<Exploration> = Vec::new();
    while status.len() < n_total
        invariant
            status@.len() <= n_total,
            n_total == m.len(),
            status@ == init_status(status@.len() as nat),
        decreases n_total - status.len(),
    {
        status.push(Exploration::UnExplored);
        proof {
            assert(status@ =~= init_status(status@.len() as nat));
        }
    }
    let mut holding: Vec<Option<usize>> = Vec::new();
    let mut exited: Vec<bool> = Vec::new();
    while holding.len() < worker_count
        invariant
            holding@.len() <= worker_count,
            exited@.len() == holding@.len(),
            forall|w: int| 0 <= w < holding@.len() ==> (#[trigger] holding@[w]) is None,
            forall|w: int| 0 <= w < exited@.len() ==> !(#[trigger] exited@[w]),
        decreases worker_count - holding.len(),
    {
        holding.push(None);
        exited.push(false);
    }
    let mut work: Vec<usize> = Vec::new();
    work.push(root);
    let mut trace: Vec<String> = Vec::new();
    let mut active: usize = worker_count;
    let mut si: usize = 0;
    let ghost mut visited: Set<int> = Set::empty();
    let ghost mut pending: Seq<usize> = seq![root];
    proof {
        broadcast use group_to_multiset_ensures;
        broadcast use group_multiset_axioms;

        let wc = worker_count as int;
        assert(work@ =~= seq![root]);
        lemma_live_count_full(exited@, wc);
        lemma_held_count_zero(holding@, wc);
        lemma_held_items_none(holding@, wc);
        assert(trace.deep_view() + run(m, status@, work@) =~= seq_trace(m, root));
        assert(in_work(work@, root as int)) by {
            assert((work@[0] as int) == root as int);
        }
        assert(pending.to_multiset() =~= work@.to_multiset().add(held_items(holding@, wc)));
        assert(trace.deep_view().to_multiset().len() == 0);
        lemma_multiset_empty_len(trace.deep_view().to_multiset());
        assert(run(m, status@, pending) == seq_trace(m, root));
        assert(trace.deep_view().to_multiset().add(run(m, status@, pending).to_multiset())
            =~= seq_trace(m, root).to_multiset());
    }
    while active != 0
        invariant
            wf_nodes(m),
            m == maze@,
            root < m.len(),
            worker_count >= 1,
            status@.len() == m.len(),
            work_valid(m, work@),
            holding@.len() == worker_count,
            exited@.len() == worker_count,
            si <= schedule@.len(),
            active == live_count(exited@, worker_count as int),
            forall|w: int|
                0 <= w < holding@.len() ==> ((#[trigger] holding@[w]) matches Some(u) ==> (
                u as int) < m.len()),
            forall|w: int|
                0 <= w < exited@.len() && #[trigger] exited@[w] ==> holding@[w] is None,
            active == 0 ==> work@.len() == 0,
            worker_count == 1 ==> ((holding@[0] is None ==> trace.deep_view() + run(
                m,
                status@,
                work@,
            ) == seq_trace(m, root)) && (holding@[0] matches Some(u) ==> trace.deep_view() + run(
                m,
                status@,
                work@.push(u),
            ) == seq_trace(m, root))),
            forall|n: int|
                #[trigger] visited.contains(n) ==> 0 <= n < m.len() && trace_has_label(
                    trace.deep_view(),
                    node_label(m[n]),
                ),
            forall|j: int|
                0 <= j < m.len() && #[trigger] visited.contains(j) && m[j] is Branch ==> !(
                status@[j] is UnExplored),
            forall|j: int|
                0 <= j < m.len() && m[j] is Branch && !((#[trigger] status@[j]) is UnExplored)
                    ==> visited.contains(j) && covered_any(
                    work@,
                    holding@,
                    visited,
                    left_of(m[j]) as int,
                ) && covered_any(work@, holding@, visited, right_of(m[j]) as int),
            covered_any(work@, holding@, visited, root as int),
            work_valid(m, pending),
            pending.to_multiset() == work@.to_multiset().add(
                held_items(holding@, worker_count as int),
            ),
            trace.deep_view().to_multiset().add(run(m, status@, pending).to_multiset())
                == seq_trace(m, root).to_multiset(),
            trace.deep_view().len() + phi(m, status@, work@) + held_count(
                holding@,
                worker_count as int,
            ) <= 1 + pot_sum(m, init_status(m.len()), m.len() as int),
        decreases
                phi(m, status@, work@) + held_count(holding@, worker_count as int),
                idle_count(exited@, holding@, worker_count as int),
                schedule@.len() - si,
    {
        let ghost wc = worker_count as int;
        let w: usize;
        if si < schedule.len() {
            let c = schedule[si];
            si = si + 1;
            w = c % worker_count;
        } else {
            w = first_live(&exited);
        }
        if !exited[w] {
            match holding[w] {
                Some(node) => {
                    // the critical section: one arrival at the held node
                    let ghost st0 = status@;
                    let ghost work0 = work@;
                    let ghost t0 = trace.deep_view();
                    let ghost h0 = holding@;
                    let ghost v0 = visited;
                    holding.set(w, None);
                    maze.explore(node, &mut status, &mut work, &mut trace);
                    proof {
                        broadcast use group_to_multiset_ensures;
                        broadcast use group_multiset_axioms;

                        let n = node as int;
                        visited = visited.insert(n);
                        assert(work@ =~= work0 + step_pushes(m, st0, n));
                        lemma_explore_phi(m, st0, work0, node);
                        lemma_held_count_update(h0, w as int, None, wc);
                        lemma_after_arrival_held(m, st0, work0, h0, v0, t0, w as int, node);
                        assert(covered_any(work0, h0, v0, root as int));
                        // step the pending sequence past this arrival
                        let p0 = pending;
                        lemma_held_items_has(h0, w as int, node, wc);
                        assert(p0.to_multiset().count(node) >= 1);
                        assert(p0.contains(node));
                        let k = choose|k: int| 0 <= k < p0.len() && p0[k] == node;
                        let pr = p0.remove(k);
                        let p2 = pr + step_pushes(m, st0, n);
                        assert(work_valid(m, pr.push(node))) by {
                            assert forall|i: int|
                                0 <= i < pr.push(node).len() implies ((
                            #[trigger] pr.push(node)[i]) as int) < m.len() by {
                                if i < k {
                                    assert(pr.push(node)[i] == p0[i]);
                                } else if i < pr.len() {
                                    assert(pr.push(node)[i] == p0[i + 1]);
                                }
                            }
                        }
                        assert(pr.to_multiset() == p0.to_multiset().remove(node));
                        assert(pr.push(node).to_multiset() =~= p0.to_multiset());
                        lemma_run_multiset(m, st0, p0, pr.push(node));
                        assert(pr.push(node).drop_last() =~= pr);
                        assert(pr.push(node).last() == node);
                        assert(wf_node_at(m, n));
                        assert(work_valid(m, p2)) by {
                            assert forall|i: int|
                                0 <= i < p2.len() implies ((#[trigger] p2[i]) as int)
                                < m.len() by {
                                if i < pr.len() {
                                    assert(p2[i] == pr.push(node)[i]);
                                } else {
                                    assert(p2[i] == step_pushes(m, st0, n)[i - pr.len()]);
                                }
                            }
                        }
                        assert(run(m, st0, pr.push(node)) == seq![node_label(m[n])] + run(
                            m,
                            status@,
                            p2,
                        ));
                        lemma_multiset_commutative(
                            seq![node_label(m[n])],
                            run(m, status@, p2),
                        );
                        assert(trace.deep_view() =~= t0.push(node_label(m[n])));
                        assert(trace.deep_view().to_multiset().add(
                            run(m, status@, p2).to_multiset(),
                        ) =~= t0.to_multiset().add(run(m, st0, p0).to_multiset()));
                        // the pending entries still mirror the stack plus all hands
                        lemma_held_items_update(h0, w as int, None, wc);
                        lemma_multiset_commutative(pr, step_pushes(m, st0, n));
                        lemma_multiset_commutative(work0, step_pushes(m, st0, n));
                        assert forall|x: usize|
                            p2.to_multiset().count(x) == work@.to_multiset().add(
                                held_items(holding@, wc),
                            ).count(x) by {
                            assert(p2.to_multiset().count(x) == pr.to_multiset().count(x)
                                + step_pushes(m, st0, n).to_multiset().count(x));
                            assert(work@.to_multiset().count(x) == work0.to_multiset().count(x)
                                + step_pushes(m, st0, n).to_multiset().count(x));
                            assert(held_items(holding@, wc).add(opt_items(h0[w as int])).count(
                                x,
                            ) == held_items(h0, wc).add(opt_items(None::<usize>)).count(x));
                            assert(held_items(holding@, wc).count(x) + opt_items(
                                h0[w as int],
                            ).count(x) == held_items(h0, wc).count(x));
                            assert(p0.to_multiset().count(x) == work0.to_multiset().count(x)
                                + held_items(h0, wc).count(x));
                        }
                        assert(p2.to_multiset() =~= work@.to_multiset().add(
                            held_items(holding@, wc),
                        ));
                        pending = p2;
                        assert forall|w2: int|
                            0 <= w2 < holding@.len() implies ((#[trigger] holding@[w2])
                            matches Some(u) ==> (u as int) < m.len()) by {
                            if w2 != w as int {
                                assert(holding@[w2] == h0[w2]);
                            }
                        }
                        if worker_count == 1 {
                            assert(work0.push(node).drop_last() =~= work0);
                            assert(work_valid(m, work0.push(node))) by {
                                assert forall|k: int|
                                    0 <= k < work0.push(node).len() implies ((
                                    #[trigger] work0.push(node)[k]) as int) < m.len() by {
                                    if k < work0.len() {
                                        assert(work0.push(node)[k] == work0[k]);
                                    }
                                }
                            }
                            assert(run(m, st0, work0.push(node)) == seq![node_label(m[n])] + run(
                                m,
                                status@,
                                work@,
                            ));
                            assert(trace.deep_view() + run(m, status@, work@) =~= t0 + run(
                                m,
                                st0,
                                work0.push(node),
                            ));
                        }
                    }
                },
                None => {
                    if work.len() > 0 {
                        // withdraw the most recent work item
                        let ghost work0 = work@;
                        let ghost h0 = holding@;
                        proof {
                            assert(((work0[work0.len() - 1]) as int) < m.len());
                        }
                        let node = work.pop().unwrap();
                        holding.set(w, Some(node));
                        proof {
                            broadcast use group_to_multiset_ensures;
                            broadcast use group_multiset_axioms;

                            assert(work@ =~= work0.drop_last());
                            lemma_after_withdraw(work0, h0, visited, w as int, node);
                            lemma_held_count_update(h0, w as int, Some(node), wc);
                            lemma_idle_count_update_holding(exited@, h0, w as int, Some(node), wc);
                            lemma_held_items_update(h0, w as int, Some(node), wc);
                            assert(work0.drop_last() =~= work0.remove(work0.len() - 1));
                            assert(work@.to_multiset() == work0.to_multiset().remove(node));
                            assert(work0.contains(node));
                            assert(work0.to_multiset().count(node) >= 1);
                            assert forall|x: usize|
                                pending.to_multiset().count(x) == work@.to_multiset().add(
                                    held_items(holding@, wc),
                                ).count(x) by {
                                assert(held_items(holding@, wc).add(opt_items(
                                    None::<usize>,
                                )).count(x) == held_items(h0, wc).add(opt_items(
                                    Some(node),
                                )).count(x));
                                assert(held_items(holding@, wc).count(x) + opt_items(
                                    None::<usize>,
                                ).count(x) == held_items(h0, wc).count(x) + opt_items(
                                    Some(node),
                                ).count(x));
                                assert(pending.to_multiset().count(x) == work0.to_multiset().count(
                                    x,
                                ) + held_items(h0, wc).count(x));
                            }
                            assert(pending.to_multiset() =~= work@.to_multiset().add(
                                held_items(holding@, wc),
                            ));
                            assert(covered_any(work0, h0, visited, root as int));
                            assert forall|j: int|
                                0 <= j < m.len() && m[j] is Branch && !((
                                #[trigger] status@[j]) is UnExplored) implies visited.contains(j)
                                && covered_any(work@, holding@, visited, left_of(m[j]) as int)
                                && covered_any(
                                work@,
                                holding@,
                                visited,
                                right_of(m[j]) as int,
                            ) by {
                                assert(covered_any(work0, h0, visited, left_of(m[j]) as int));
                                assert(covered_any(work0, h0, visited, right_of(m[j]) as int));
                            }
                            assert forall|w2: int|
                                0 <= w2 < holding@.len() implies ((#[trigger] holding@[w2])
                                matches Some(u) ==> (u as int) < m.len()) by {
                                if w2 != w as int {
                                    assert(holding@[w2] == h0[w2]);
                                }
                            }
                            if worker_count == 1 {
                                assert(work@.push(node) =~= work0);
                            }
                        }
                    } else {
                        // the stack is empty: this worker exits for good
                        let ghost e0 = exited@;
                        exited.set(w, true);
                        active = active - 1;
                        proof {
                            lemma_live_count_update(e0, w as int, wc);
                            lemma_idle_count_update_exited(e0, holding@, w as int, wc);
                        }
                    }
                },
            }
        }
    }
    proof {
        broadcast use group_to_multiset_ensures;
        broadcast use group_multiset_axioms;

        lemma_pot_sum_le(m, init_status(m.len()), m.len() as int);
        lemma_live_count_zero(exited@, worker_count as int);
        // the stack is drained and every hand is empty, so nothing is pending
        assert forall|j: int|
            0 <= j < worker_count as int implies (#[trigger] holding@[j]) is None by {
            assert(exited@[j]);
        }
        lemma_held_items_none(holding@, worker_count as int);
        assert(work@.to_multiset().len() == 0);
        lemma_multiset_empty_len(work@.to_multiset());
        assert(pending.to_multiset() =~= Multiset::empty());
        lemma_multiset_empty_len(pending.to_multiset());
        assert(pending.len() == 0);
        assert(run(m, status@, pending) == Seq::<Seq<char>>::empty());
        assert(Seq::<Seq<char>>::empty().to_multiset().len() == 0);
        lemma_multiset_empty_len(Seq::<Seq<char>>::empty().to_multiset());
        assert(trace.deep_view().to_multiset() =~= seq_trace(m, root).to_multiset());
        assert forall|x: int| #[trigger] covered_any(work@, holding@, visited, x) implies visited
            .contains(x) by {
            if held(holding@, x) {
                let w = choose|w: int|
                    0 <= w < holding@.len() && ((#[trigger] holding@[w]) matches Some(u) && u
                        as int == x);
                assert(exited@[w]);
                assert(false);
            }
        }
        if worker_count == 1 {
            assert(exited@[0]);
            assert(holding@[0] is None);
            assert(trace.deep_view() + run(m, status@, work@) == seq_trace(m, root));
            assert(trace.deep_view() =~= seq_trace(m, root));
        }
        assert forall|n: int|
            0 <= n < m.len() && reaches(m, root as int, n) implies trace_has_label(
            trace.deep_view(),
            node_label(m[n]),
        ) by {
            assert(visited.contains(root as int));
            lemma_reaches_visited(m, status@, visited, root as int, n);
        }
    }
    trace
}

/// The lowest-numbered worker that has not exited.
fn first_live(exited: &Vec<bool>) -> (w: usize)
    requires
        live_count(exited@, exited@.len() as int) > 0,
    ensures
        w < exited@.len(),
        !exited@[w as int],
{
    proof {
        lemma_live_count_pos(exited@, exited@.len() as int);
    }
    let mut i: usize = 0;
    while i < exited.len()
        invariant
            i <= exited@.len(),
            forall|j: int| 0 <= j < i ==> exited@[j],
            exists|j: int| 0 <= j < exited@.len() && !exited@[j],
        decreases exited@.len() - i,
    {
        if !exited[i] {
            return i;
        }
        i = i + 1;
    }
    proof {
        assert(false);
    }
    0
}

} // verus!
