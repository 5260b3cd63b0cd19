//! Schedule independence of the traversal's output, up to order.
//!
//! Which labels the traversal records, and how often, does not depend on
//! the order in which pending work is taken: draining two work stacks that
//! hold the same entries in any orders yields traces with the same
//! multiset of labels.  This is the confluence behind the protocol — any
//! interleaving of workers records exactly the arrivals, nothing more and
//! nothing less — and it is what lets the multi-worker traversal promise
//! the sequential trace's multiset for every schedule.
//!
//! The proof is the classic exchange argument: steps on two distinct nodes
//! commute outright, and two steps on the same node advance its status
//! twice and push its children once, whichever of the two goes first.

use vstd::prelude::*;
use vstd::seq_lib::group_to_multiset_ensures;
use vstd::seq_lib::lemma_multiset_commutative;
use vstd::multiset::group_multiset_axioms;

use crate::explore::Exploration;
use crate::explore::step_pushes;
use crate::explore::step_status;
use crate::graph::Node;
use crate::graph::node_label;
use crate::measure::phi;
use crate::traversal::lemma_step_frame;
use crate::traversal::run;
use crate::traversal::work_valid;

verus! {

/// Steps on two distinct nodes commute: each advances its own status and
/// reads nothing of the other's.
proof fn lemma_step_commute(m: Seq<Node>, st: Seq<Exploration>, a: int, b: int)
    requires
        st.len() == m.len(),
        0 <= a < st.len(),
        0 <= b < st.len(),
        a != b,
    ensures
        step_pushes(m, step_status(m, st, b), a) == step_pushes(m, st, a),
        step_status(m, step_status(m, st, b), a) == step_status(m, step_status(m, st, a), b),
{
    let stb = step_status(m, st, b);
    let sta = step_status(m, st, a);
    assert(stb[a] == st[a]);
    assert(sta[b] == st[b]);
    assert(step_status(m, stb, a) =~= step_status(m, sta, b));
}

/// Draining work stacks that hold the same entries — in any orders —
/// records the same multiset of labels.
#[verifier::rlimit(60)]
#[verifier::spinoff_prover]
pub proof fn lemma_run_multiset(
    m: Seq<Node>,
    st: Seq<Exploration>,
    w1: Seq<usize>,
    w2: Seq<usize>,
)
    requires
        crate::graph::wf_nodes(m),
        st.len() == m.len(),
        work_valid(m, w1),
        work_valid(m, w2),
        w1.to_multiset() == w2.to_multiset(),
    ensures
        run(m, st, w1).to_multiset() == run(m, st, w2).to_multiset(),
    decreases phi(m, st, w1),
{
    broadcast use group_to_multiset_ensures;
    broadcast use group_multiset_axioms;

    assert(w1.len() == w2.len()) by {
        assert(w1.to_multiset().len() == w1.len());
        assert(w2.to_multiset().len() == w2.len());
    }
    if w1.len() == 0 {
        return ;
    }
    let b = w1.last();
    let a = w2.last();
    lemma_step_frame(m, st, w1);
    lemma_step_frame(m, st, w2);
    let stb = step_status(m, st, b as int);
    let sta = step_status(m, st, a as int);
    let pb = step_pushes(m, st, b as int);
    let pa = step_pushes(m, st, a as int);
    let u1 = w1.drop_last() + pb;
    let u2 = w2.drop_last() + pa;
    assert(run(m, st, w1) == seq![node_label(m[b as int])] + run(m, stb, u1));
    assert(run(m, st, w2) == seq![node_label(m[a as int])] + run(m, sta, u2));
    lemma_multiset_commutative(seq![node_label(m[b as int])], run(m, stb, u1));
    lemma_multiset_commutative(seq![node_label(m[a as int])], run(m, sta, u2));
    assert(w1.drop_last() =~= w1.remove(w1.len() - 1));
    assert(w2.drop_last() =~= w2.remove(w2.len() - 1));
    lemma_multiset_commutative(w1.drop_last(), pb);
    lemma_multiset_commutative(w2.drop_last(), pa);
    if a == b {
        // same head: the tails carry the same entries
        assert(u1.to_multiset() == u2.to_multiset()) by {
            assert(w1.drop_last().to_multiset() == w1.to_multiset().remove(b));
            assert(w2.drop_last().to_multiset() == w2.to_multiset().remove(b));
        }
        lemma_run_multiset(m, stb, u1, u2);
    } else {
        // exchange: process b then a on the left, a then b on the right,
        // and meet in the middle
        assert((a as int) < m.len() && (b as int) < m.len()) by {
            assert((w1[w1.len() - 1] as int) < m.len());
            assert((w2[w2.len() - 1] as int) < m.len());
        }
        lemma_step_commute(m, st, a as int, b as int);

        // the left tail still holds a
        assert(u1.to_multiset().count(a) > 0) by {
            assert(w2.to_multiset().count(a) > 0);
            assert(w1.drop_last().to_multiset() == w1.to_multiset().remove(b));
        }
        assert(u1.contains(a));
        let k1 = choose|k: int| 0 <= k < u1.len() && u1[k] == a;
        let z1 = u1.remove(k1);
        assert(z1.to_multiset() == u1.to_multiset().remove(a));
        assert(work_valid(m, z1.push(a))) by {
            assert forall|i: int|
                0 <= i < z1.push(a).len() implies ((#[trigger] z1.push(a)[i]) as int)
                < m.len() by {
                if i < k1 {
                    assert(z1.push(a)[i] == u1[i]);
                } else if i < z1.len() {
                    assert(z1.push(a)[i] == u1[i + 1]);
                }
            }
        }
        assert(z1.push(a).to_multiset() == u1.to_multiset());
        lemma_run_multiset(m, stb, u1, z1.push(a));
        assert(z1.push(a).drop_last() =~= z1);
        assert(z1.push(a).last() == a);
        let stba = step_status(m, stb, a as int);
        assert(stba.len() == m.len());
        assert(step_pushes(m, stb, a as int) == pa);
        assert(crate::graph::wf_node_at(m, a as int));
        assert(work_valid(m, z1 + pa)) by {
            assert forall|i: int|
                0 <= i < (z1 + pa).len() implies (((#[trigger] (z1 + pa)[i])) as int)
                < m.len() by {
                if i < z1.len() {
                    assert((z1 + pa)[i] == z1.push(a)[i]);
                } else {
                    assert((z1 + pa)[i] == pa[i - z1.len()]);
                }
            }
        }
        assert(run(m, stb, z1.push(a)) == seq![node_label(m[a as int])] + run(m, stba, z1 + pa));
        lemma_multiset_commutative(seq![node_label(m[a as int])], run(m, stba, z1 + pa));

        // the right tail still holds b
        assert(u2.to_multiset().count(b) > 0) by {
            assert(w1.to_multiset().count(b) > 0);
            assert(w2.drop_last().to_multiset() == w2.to_multiset().remove(a));
        }
        assert(u2.contains(b));
        let k2 = choose|k: int| 0 <= k < u2.len() && u2[k] == b;
        let z2 = u2.remove(k2);
        assert(z2.to_multiset() == u2.to_multiset().remove(b));
        assert(work_valid(m, z2.push(b))) by {
            assert forall|i: int|
                0 <= i < z2.push(b).len() implies ((#[trigger] z2.push(b)[i]) as int)
                < m.len() by {
                if i < k2 {
                    assert(z2.push(b)[i] == u2[i]);
                } else if i < z2.len() {
                    assert(z2.push(b)[i] == u2[i + 1]);
                }
            }
        }
        assert(z2.push(b).to_multiset() == u2.to_multiset());
        lemma_run_multiset(m, sta, u2, z2.push(b));
        assert(z2.push(b).drop_last() =~= z2);
        assert(z2.push(b).last() == b);
        let stab = step_status(m, sta, b as int);
        assert(stab.len() == m.len());
        assert(step_pushes(m, sta, b as int) == pb);
        assert(crate::graph::wf_node_at(m, b as int));
        assert(work_valid(m, z2 + pb)) by {
            assert forall|i: int|
                0 <= i < (z2 + pb).len() implies (((#[trigger] (z2 + pb)[i])) as int)
                < m.len() by {
                if i < z2.len() {
                    assert((z2 + pb)[i] == z2.push(b)[i]);
                } else {
                    assert((z2 + pb)[i] == pb[i - z2.len()]);
                }
            }
        }
        assert(run(m, sta, z2.push(b)) == seq![node_label(m[b as int])] + run(m, stab, z2 + pb));
        lemma_multiset_commutative(seq![node_label(m[b as int])], run(m, stab, z2 + pb));

        // the two middles agree: same statuses, same pending entries
        assert(stab == stba);
        assert((z1 + pa).to_multiset() == (z2 + pb).to_multiset()) by {
            lemma_multiset_commutative(z1, pa);
            lemma_multiset_commutative(z2, pb);
            assert(z1.to_multiset() =~= w1.to_multiset().remove(b).add(pb.to_multiset()).remove(
                a,
            ));
            assert(z2.to_multiset() =~= w2.to_multiset().remove(a).add(pa.to_multiset()).remove(
                b,
            ));
            assert(z1.to_multiset().add(pa.to_multiset()) =~= z2.to_multiset().add(
                pb.to_multiset(),
            ));
        }
        // the recursion is two full steps below the start
        assert(phi(m, stba, z1 + pa) < phi(m, st, w1)) by {
            lemma_step_frame(m, stb, z1.push(a));
            assert(phi(m, stb, z1.push(a)) == phi(m, stb, u1));
        }
        lemma_run_multiset(m, stba, z1 + pa, z2 + pb);
        // chain both sides down to the common middle
        assert(run(m, st, w1).to_multiset() =~= run(m, st, w2).to_multiset());
    }
}

} // verus!
