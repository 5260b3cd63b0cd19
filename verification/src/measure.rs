//! Potentials and counters that bound the traversal.
//!
//! A branch can still cause at most three withdrawals: its own first and
//! second arrival and, counted through the work it produces, one per pushed
//! child.  `pot` turns a status into that remaining capacity, `pot_sum` adds
//! it up over the arena, and `phi` adds the pending work on top.  Every
//! withdrawal strictly decreases `phi`, which is why the traversal ends in a
//! number of steps bounded by the number of branches.
//!
//! The counters over worker state (`held_count`, `live_count`, `idle_count`)
//! serve the same purpose for the multi-worker protocol.

use vstd::prelude::*;
use vstd::multiset::Multiset;

use crate::explore::Exploration;
use crate::graph::Node;

verus! {

/// The withdrawals a branch in status `s` can still pay for.
pub open spec fn pot(n: Node, s: Exploration) -> nat {
    match n {
        Node::Branch { .. } => match s {
            Exploration::UnExplored => 3,
            Exploration::PartiallyExplored => 1,
            Exploration::Explored => 0,
        },
        Node::Leaf { .. } => 0,
    }
}

/// Remaining capacity summed over the first `k` nodes.
pub open spec fn pot_sum(nodes: Seq<Node>, st: Seq<Exploration>, k: int) -> nat
    decreases k,
{
    if k <= 0 {
        0
    } else {
        pot_sum(nodes, st, k - 1) + pot(nodes[k - 1], st[k - 1])
    }
}

/// How many of the first `k` nodes are branches.
pub open spec fn branch_count(nodes: Seq<Node>, k: int) -> nat
    decreases k,
{
    if k <= 0 {
        0
    } else {
        branch_count(nodes, k - 1) + (if nodes[k - 1] is Branch {
            1nat
        } else {
            0nat
        })
    }
}

/// The traversal potential: pending work plus the capacity still stored in
/// the statuses.
pub open spec fn phi(nodes: Seq<Node>, st: Seq<Exploration>, work: Seq<usize>) -> nat {
    work.len() + pot_sum(nodes, st, nodes.len() as int)
}

/// Changing one status changes `pot_sum` by exactly the difference at that
/// node.
pub proof fn lemma_pot_sum_update(
    nodes: Seq<Node>,
    st: Seq<Exploration>,
    j: int,
    v: Exploration,
    k: int,
)
    requires
        0 <= j < st.len(),
        nodes.len() == st.len(),
        k <= st.len(),
    ensures
        j < k ==> pot_sum(nodes, st.update(j, v), k) + pot(nodes[j], st[j]) == pot_sum(
            nodes,
            st,
            k,
        ) + pot(nodes[j], v),
        k <= j ==> pot_sum(nodes, st.update(j, v), k) == pot_sum(nodes, st, k),
    decreases k,
{
    if k > 0 {
        lemma_pot_sum_update(nodes, st, j, v, k - 1);
    }
}

/// The stored capacity never exceeds three per branch.
pub proof fn lemma_pot_sum_le(nodes: Seq<Node>, st: Seq<Exploration>, k: int)
    requires
        st.len() == nodes.len(),
        k <= nodes.len(),
    ensures
        pot_sum(nodes, st, k) <= 3 * branch_count(nodes, k),
    decreases k,
{
    if k > 0 {
        lemma_pot_sum_le(nodes, st, k - 1);
    }
}

/// How many of the first `k` workers hold a withdrawn node.
pub open spec fn held_count(holding: Seq<Option<usize>>, k: int) -> nat
    decreases k,
{
    if k <= 0 {
        0
    } else {
        held_count(holding, k - 1) + (if holding[k - 1] is Some {
            1nat
        } else {
            0nat
        })
    }
}

/// Changing one worker's held node changes `held_count` by the difference
/// at that worker.
pub proof fn lemma_held_count_update(holding: Seq<Option<usize>>, j: int, v: Option<usize>, k: int)
    requires
        0 <= j < holding.len(),
        k <= holding.len(),
    ensures
        j < k ==> held_count(holding.update(j, v), k) + (if holding[j] is Some {
            1nat
        } else {
            0nat
        }) == held_count(holding, k) + (if v is Some {
            1nat
        } else {
            0nat
        }),
        k <= j ==> held_count(holding.update(j, v), k) == held_count(holding, k),
    decreases k,
{
    if k > 0 {
        lemma_held_count_update(holding, j, v, k - 1);
    }
}

/// What one worker's hands hold, as a multiset.
pub open spec fn opt_items(o: Option<usize>) -> Multiset<usize> {
    match o {
        Some(u) => Multiset::empty().insert(u),
        None => Multiset::empty(),
    }
}

/// Everything the first `k` workers hold, as a multiset of node indices.
pub open spec fn held_items(holding: Seq<Option<usize>>, k: int) -> Multiset<usize>
    decreases k,
{
    if k <= 0 {
        Multiset::empty()
    } else {
        held_items(holding, k - 1).add(opt_items(holding[k - 1]))
    }
}

/// Changing one worker's held node exchanges its old item for its new one.
pub proof fn lemma_held_items_update(holding: Seq<Option<usize>>, j: int, v: Option<usize>, k: int)
    requires
        0 <= j < holding.len(),
        k <= holding.len(),
    ensures
        j < k ==> held_items(holding.update(j, v), k).add(opt_items(holding[j])) =~= held_items(
            holding,
            k,
        ).add(opt_items(v)),
        k <= j ==> held_items(holding.update(j, v), k) == held_items(holding, k),
    decreases k,
{
    broadcast use vstd::multiset::group_multiset_axioms;

    if k > 0 {
        lemma_held_items_update(holding, j, v, k - 1);
        let upd = holding.update(j, v);
        if j == k - 1 {
            assert(held_items(upd, k - 1) == held_items(holding, k - 1));
            assert(held_items(upd, k).add(opt_items(holding[j])) =~= held_items(holding, k).add(
                opt_items(v),
            ));
        } else if j < k - 1 {
            assert(held_items(upd, k - 1).add(opt_items(holding[j])) == held_items(
                holding,
                k - 1,
            ).add(opt_items(v)));
            assert(upd[k - 1] == holding[k - 1]);
            assert forall|x: usize|
                held_items(upd, k).add(opt_items(holding[j])).count(x) == held_items(
                    holding,
                    k,
                ).add(opt_items(v)).count(x) by {
                assert(held_items(upd, k - 1).add(opt_items(holding[j])).count(x) == held_items(
                    holding,
                    k - 1,
                ).add(opt_items(v)).count(x));
            }
            assert(held_items(upd, k).add(opt_items(holding[j])) =~= held_items(holding, k).add(
                opt_items(v),
            ));
        }
    }
}

/// A held node is among the held items.
pub proof fn lemma_held_items_has(holding: Seq<Option<usize>>, j: int, u: usize, k: int)
    requires
        0 <= j < k <= holding.len(),
        holding[j] == Some(u),
    ensures
        held_items(holding, k).count(u) >= 1,
    decreases k,
{
    broadcast use vstd::multiset::group_multiset_axioms;

    if j < k - 1 {
        lemma_held_items_has(holding, j, u, k - 1);
    }
}

/// Workers holding nothing hold no items.
pub proof fn lemma_held_items_none(holding: Seq<Option<usize>>, k: int)
    requires
        k <= holding.len(),
        forall|j: int| 0 <= j < k ==> (#[trigger] holding[j]) is None,
    ensures
        held_items(holding, k) =~= Multiset::empty(),
    decreases k,
{
    broadcast use vstd::multiset::group_multiset_axioms;

    if k > 0 {
        lemma_held_items_none(holding, k - 1);
    }
}

/// How many of the first `k` workers have not exited.
pub open spec fn live_count(exited: Seq<bool>, k: int) -> nat
    decreases k,
{
    if k <= 0 {
        0
    } else {
        live_count(exited, k - 1) + (if exited[k - 1] {
            0nat
        } else {
            1nat
        })
    }
}

/// Marking one worker exited lowers `live_count` by one.
pub proof fn lemma_live_count_update(exited: Seq<bool>, j: int, k: int)
    requires
        0 <= j < exited.len(),
        k <= exited.len(),
        !exited[j],
    ensures
        j < k ==> live_count(exited.update(j, true), k) + 1 == live_count(exited, k),
        k <= j ==> live_count(exited.update(j, true), k) == live_count(exited, k),
    decreases k,
{
    if k > 0 {
        lemma_live_count_update(exited, j, k - 1);
    }
}

/// A positive `live_count` names a worker that has not exited.
pub proof fn lemma_live_count_pos(exited: Seq<bool>, k: int)
    requires
        0 < live_count(exited, k),
        k <= exited.len(),
    ensures
        exists|j: int| 0 <= j < k && !exited[j],
    decreases k,
{
    if k > 0 && exited[k - 1] {
        lemma_live_count_pos(exited, k - 1);
    }
}

/// When no worker is live, every worker has exited.
pub proof fn lemma_live_count_zero(exited: Seq<bool>, k: int)
    requires
        live_count(exited, k) == 0,
        k <= exited.len(),
    ensures
        forall|j: int| 0 <= j < k ==> exited[j],
    decreases k,
{
    if k > 0 {
        lemma_live_count_zero(exited, k - 1);
    }
}

/// Before any worker exits, all of them are live.
pub proof fn lemma_live_count_full(exited: Seq<bool>, k: int)
    requires
        0 <= k <= exited.len(),
        forall|j: int| 0 <= j < k ==> !exited[j],
    ensures
        live_count(exited, k) == k,
    decreases k,
{
    if k > 0 {
        lemma_live_count_full(exited, k - 1);
    }
}

/// Workers holding nothing count for nothing.
pub proof fn lemma_held_count_zero(holding: Seq<Option<usize>>, k: int)
    requires
        k <= holding.len(),
        forall|j: int| 0 <= j < k ==> (#[trigger] holding[j]) is None,
    ensures
        held_count(holding, k) == 0,
    decreases k,
{
    if k > 0 {
        lemma_held_count_zero(holding, k - 1);
    }
}

/// How many of the first `k` workers are live and idle: neither exited nor
/// holding a node.
pub open spec fn idle_count(exited: Seq<bool>, holding: Seq<Option<usize>>, k: int) -> nat
    decreases k,
{
    if k <= 0 {
        0
    } else {
        idle_count(exited, holding, k - 1) + (if !exited[k - 1] && holding[k - 1] is None {
            1nat
        } else {
            0nat
        })
    }
}

/// Changing one worker's held node changes `idle_count` by the difference
/// at that worker.
pub proof fn lemma_idle_count_update_holding(
    exited: Seq<bool>,
    holding: Seq<Option<usize>>,
    j: int,
    v: Option<usize>,
    k: int,
)
    requires
        0 <= j < holding.len(),
        holding.len() == exited.len(),
        k <= holding.len(),
    ensures
        j < k ==> idle_count(exited, holding.update(j, v), k) + (if !exited[j] && holding[j]
            is None {
            1nat
        } else {
            0nat
        }) == idle_count(exited, holding, k) + (if !exited[j] && v is None {
            1nat
        } else {
            0nat
        }),
        k <= j ==> idle_count(exited, holding.update(j, v), k) == idle_count(exited, holding, k),
    decreases k,
{
    if k > 0 {
        lemma_idle_count_update_holding(exited, holding, j, v, k - 1);
    }
}

/// Marking an idle worker exited lowers `idle_count` by one.
pub proof fn lemma_idle_count_update_exited(
    exited: Seq<bool>,
    holding: Seq<Option<usize>>,
    j: int,
    k: int,
)
    requires
        0 <= j < exited.len(),
        holding.len() == exited.len(),
        k <= exited.len(),
        !exited[j],
        holding[j] is None,
    ensures
        j < k ==> idle_count(exited.update(j, true), holding, k) + 1 == idle_count(
            exited,
            holding,
            k,
        ),
        k <= j ==> idle_count(exited.update(j, true), holding, k) == idle_count(
            exited,
            holding,
            k,
        ),
    decreases k,
{
    if k > 0 {
        lemma_idle_count_update_exited(exited, holding, j, k - 1);
    }
}

} // verus!
