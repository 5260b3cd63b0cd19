//! The graph arena.
//!
//! A `Maze` owns every node of the directed acyclic graph in one vector; an
//! edge is the index of the child node.  Children are created before their
//! parents, so every branch points strictly downwards in the arena — that
//! ordering is the well-formedness invariant `wf`, and it is what makes the
//! graph acyclic by construction.  A node reachable through several parents
//! is stored once and referenced by each of them, which is exactly the shared
//! substructure the traversal engine is about.

use vstd::prelude::*;
use vstd::string::StringExecFns;

verus! {

/// One vertex of the graph: a terminal `Leaf` or a two-child `Branch`.
/// Children are arena indices; the shape is immutable after construction.
#[derive(Debug)]
pub enum Node {
    Branch { label: String, left: usize, right: usize },
    Leaf { label: String },
}

/// The label of a node, as a sequence of characters.
pub open spec fn node_label(n: Node) -> Seq<char> {
    match n {
        Node::Branch { label, .. } => label@,
        Node::Leaf { label } => label@,
    }
}

/// The left child of a branch (zero on a leaf, which has none).
pub open spec fn left_of(n: Node) -> usize {
    match n {
        Node::Branch { left, .. } => left,
        Node::Leaf { .. } => 0,
    }
}

/// The right child of a branch (zero on a leaf, which has none).
pub open spec fn right_of(n: Node) -> usize {
    match n {
        Node::Branch { right, .. } => right,
        Node::Leaf { .. } => 0,
    }
}

/// The node at index `i` only points at nodes created before it.
pub open spec fn wf_node_at(nodes: Seq<Node>, i: int) -> bool {
    nodes[i] is Branch ==> ((left_of(nodes[i]) as int) < i && (right_of(nodes[i]) as int) < i)
}

/// Every edge of the arena points strictly downwards: the graph is acyclic.
pub open spec fn wf_nodes(nodes: Seq<Node>) -> bool {
    forall|i: int| 0 <= i < nodes.len() ==> #[trigger] wf_node_at(nodes, i)
}

/// The graph arena.  The vector of nodes is the whole state; a root is any
/// index into it.
pub struct Maze {
    nodes: Vec<Node>,
}

impl View for Maze {
    type V = Seq<Node>;

    closed spec fn view(&self) -> Seq<Node> {
        self.nodes@
    }
}

impl Maze {
    /// Every branch points at earlier nodes, so no walk can cycle.
    pub open spec fn wf(&self) -> bool {
        wf_nodes(self@)
    }

    /// An empty arena.
    pub fn new() -> (m: Maze)
        ensures
            m@.len() == 0,
            m.wf(),
    {
        Maze { nodes: Vec::new() }
    }

    /// Add a terminal node holding `label`; returns its index.
    pub fn leaf(&mut self, label: &str) -> (idx: usize)
        requires
            old(self).wf(),
        ensures
            final(self).wf(),
            idx == old(self)@.len(),
            final(self)@.len() == old(self)@.len() + 1,
            forall|j: int| 0 <= j < old(self)@.len() ==> final(self)@[j] == old(self)@[j],
            final(self)@[idx as int] is Leaf,
            node_label(final(self)@[idx as int]) == label@,
    {
        let idx = self.nodes.len();
        self.nodes.push(Node::Leaf { label: String::from_str(label) });
        proof {
            assert forall|i: int| 0 <= i < self@.len() implies wf_node_at(self@, i) by {
                if i < idx { assert(wf_node_at(old(self)@, i)); }
            }
        }
        idx
    }

    /// Add a branch holding `label` over two already-created children;
    /// returns its index.  Several branches may share a child.
    pub fn branch(&mut self, label: &str, left: usize, right: usize) -> (idx: usize)
        requires
            old(self).wf(),
            left < old(self)@.len(),
            right < old(self)@.len(),
        ensures
            final(self).wf(),
            idx == old(self)@.len(),
            final(self)@.len() == old(self)@.len() + 1,
            forall|j: int| 0 <= j < old(self)@.len() ==> final(self)@[j] == old(self)@[j],
            final(self)@[idx as int] is Branch,
            node_label(final(self)@[idx as int]) == label@,
            left_of(final(self)@[idx as int]) == left,
            right_of(final(self)@[idx as int]) == right,
    {
        let idx = self.nodes.len();
        self.nodes.push(Node::Branch { label: String::from_str(label), left, right });
        proof {
            assert forall|i: int| 0 <= i < self@.len() implies wf_node_at(self@, i) by {
                if i < idx { assert(wf_node_at(old(self)@, i)); }
            }
        }
        idx
    }

    /// Borrow the node at `i`.
    pub fn node_ref(&self, i: usize) -> (n: &Node)
        requires
            i < self@.len(),
        ensures
            *n == self@[i as int],
    {
        &self.nodes[i]
    }

    /// How many nodes the arena holds.
    pub fn node_count(&self) -> (n: usize)
        ensures
            n == self@.len(),
    {
        self.nodes.len()
    }

    /// The label of the node at `i`.
    pub fn label_at(&self, i: usize) -> (s: &String)
        requires
            i < self@.len(),
        ensures
            s@ == node_label(self@[i as int]),
    {
        match &self.nodes[i] {
            Node::Branch { label, .. } => label,
            Node::Leaf { label } => label,
        }
    }

    /// Whether the node at `i` is a branch.
    pub fn is_branch_at(&self, i: usize) -> (b: bool)
        requires
            i < self@.len(),
        ensures
            b == (self@[i as int] is Branch),
    {
        match &self.nodes[i] {
            Node::Branch { .. } => true,
            Node::Leaf { .. } => false,
        }
    }
}

/// The sample graph: leaves `2`, `4`, `5`, `8`; branches `3 = (4, 5)`,
/// `1 = (2, 3)`, `7 = (5, 8)`, `6 = (3, 7)`, and the root `0 = (1, 6)`.
/// Nodes `3` and `5` each have two parents, so the graph is a DAG with
/// shared substructure, not a tree.  Returns the arena and the root index.
pub fn maze() -> (r: (Maze, usize))
    ensures
        r.0.wf(),
        r.0@.len() == 9,
        r.1 == 8,
        (r.0@[0] is Leaf && node_label(r.0@[0]) == "2"@),
        (r.0@[1] is Leaf && node_label(r.0@[1]) == "4"@),
        (r.0@[2] is Leaf && node_label(r.0@[2]) == "5"@),
        (r.0@[3] is Leaf && node_label(r.0@[3]) == "8"@),
        (r.0@[4] is Branch && node_label(r.0@[4]) == "3"@ && left_of(r.0@[4]) == 1 && right_of(
            r.0@[4],
        ) == 2),
        (r.0@[5] is Branch && node_label(r.0@[5]) == "1"@ && left_of(r.0@[5]) == 0 && right_of(
            r.0@[5],
        ) == 4),
        (r.0@[6] is Branch && node_label(r.0@[6]) == "7"@ && left_of(r.0@[6]) == 2 && right_of(
            r.0@[6],
        ) == 3),
        (r.0@[7] is Branch && node_label(r.0@[7]) == "6"@ && left_of(r.0@[7]) == 4 && right_of(
            r.0@[7],
        ) == 6),
        (r.0@[8] is Branch && node_label(r.0@[8]) == "0"@ && left_of(r.0@[8]) == 5 && right_of(
            r.0@[8],
        ) == 7),
{
    let mut m = Maze::new();
    let leaf2 = m.leaf("2");
    let leaf4 = m.leaf("4");
    let leaf5 = m.leaf("5");
    let leaf8 = m.leaf("8");
    let branch3 = m.branch("3", leaf4, leaf5);
    let branch1 = m.branch("1", leaf2, branch3);
    let branch7 = m.branch("7", leaf5, leaf8);
    let branch6 = m.branch("6", branch3, branch7);
    let branch0 = m.branch("0", branch1, branch6);
    (m, branch0)
}

} // verus!
