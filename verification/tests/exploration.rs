use maze::explore::Exploration;
use maze::graph::maze;
use maze::graph::Maze;
use maze::traversal::explore_sequential;

fn labels(trace: &Vec<String>) -> Vec<&str> {
    trace.iter().map(|s| s.as_str()).collect()
}

#[test]
fn sample_graph_shape() {
    let (m, root) = maze();
    assert_eq!(m.node_count(), 9);
    assert_eq!(root, 8);
    assert_eq!(m.label_at(0), "2");
    assert_eq!(m.label_at(4), "3");
    assert_eq!(m.label_at(8), "0");
    assert!(!m.is_branch_at(0));
    assert!(!m.is_branch_at(1));
    assert!(!m.is_branch_at(2));
    assert!(!m.is_branch_at(3));
    assert!(m.is_branch_at(4));
    assert!(m.is_branch_at(8));
}

#[test]
fn sequential_sample_trace() {
    let (m, root) = maze();
    let trace = explore_sequential(&m, root);
    assert_eq!(labels(&trace), vec!["0", "1", "2", "3", "4", "5", "6", "3", "7", "5", "8"]);
}

#[test]
fn sequential_is_deterministic() {
    let (m, root) = maze();
    let first = explore_sequential(&m, root);
    let second = explore_sequential(&m, root);
    assert_eq!(first, second);
}

#[test]
fn sequential_single_leaf() {
    let mut m = Maze::new();
    let leaf = m.leaf("only");
    let trace = explore_sequential(&m, leaf);
    assert_eq!(labels(&trace), vec!["only"]);
}

#[test]
fn sequential_shared_child_traced_once_per_arrival() {
    // diamond: root = (a, b), a = (shared, shared), b is the shared leaf's
    // second parent through a second branch
    let mut m = Maze::new();
    let shared = m.leaf("s");
    let a = m.branch("a", shared, shared);
    let b = m.branch("b", shared, a);
    let root = m.branch("r", a, b);
    let trace = explore_sequential(&m, root);
    // "a" is entered twice (once from the root, once from "b") but expands
    // only once; "s" is traced on every arrival
    assert_eq!(trace.iter().filter(|s| s.as_str() == "a").count(), 2);
    assert_eq!(trace.iter().filter(|s| s.as_str() == "s").count(), 3);
    assert_eq!(trace.iter().filter(|s| s.as_str() == "r").count(), 1);
    assert_eq!(trace.iter().filter(|s| s.as_str() == "b").count(), 1);
}

#[test]
fn sequential_trace_length_bound() {
    let (m, root) = maze();
    let trace = explore_sequential(&m, root);
    // five branches: at most 1 + 3 * 5 arrivals
    assert!(trace.len() <= 16);
}

#[test]
fn first_arrival_pushes_right_then_left() {
    let mut m = Maze::new();
    let l = m.leaf("l");
    let r = m.leaf("r");
    let b = m.branch("b", l, r);
    let mut status = vec![
        Exploration::UnExplored,
        Exploration::UnExplored,
        Exploration::UnExplored,
    ];
    let mut work: Vec<usize> = Vec::new();
    let mut trace: Vec<String> = Vec::new();
    m.explore(b, &mut status, &mut work, &mut trace);
    // right first, left second: the left child is withdrawn first
    assert_eq!(work, vec![r, l]);
    assert_eq!(labels(&trace), vec!["b"]);
    assert_eq!(status[b], Exploration::PartiallyExplored);
}

#[test]
fn second_arrival_pushes_nothing() {
    let mut m = Maze::new();
    let l = m.leaf("l");
    let r = m.leaf("r");
    let b = m.branch("b", l, r);
    let mut status = vec![
        Exploration::UnExplored,
        Exploration::UnExplored,
        Exploration::PartiallyExplored,
    ];
    let mut work: Vec<usize> = Vec::new();
    let mut trace: Vec<String> = Vec::new();
    m.explore(b, &mut status, &mut work, &mut trace);
    assert_eq!(work, Vec::<usize>::new());
    assert_eq!(labels(&trace), vec!["b"]);
    assert_eq!(status[b], Exploration::Explored);
}

#[test]
fn branch_status_moves_only_forward() {
    let mut m = Maze::new();
    let l = m.leaf("l");
    let r = m.leaf("r");
    let b = m.branch("b", l, r);
    let mut status = vec![
        Exploration::UnExplored,
        Exploration::UnExplored,
        Exploration::UnExplored,
    ];
    let mut work: Vec<usize> = Vec::new();
    let mut trace: Vec<String> = Vec::new();
    let mut seen = vec![status[b]];
    for _ in 0..4 {
        m.explore(b, &mut status, &mut work, &mut trace);
        seen.push(status[b]);
    }
    // a prefix of UnExplored, PartiallyExplored, Explored, Explored, ...
    assert_eq!(
        seen,
        vec![
            Exploration::UnExplored,
            Exploration::PartiallyExplored,
            Exploration::Explored,
            Exploration::Explored,
            Exploration::Explored,
        ]
    );
}

#[test]
fn leaf_arrivals_mutate_no_state() {
    let mut m = Maze::new();
    let l = m.leaf("leaf");
    let r = m.leaf("other");
    let b = m.branch("b", l, r);
    let mut status = vec![
        Exploration::UnExplored,
        Exploration::UnExplored,
        Exploration::PartiallyExplored,
    ];
    let mut work: Vec<usize> = vec![b];
    let mut trace: Vec<String> = Vec::new();
    for _ in 0..5 {
        m.explore(l, &mut status, &mut work, &mut trace);
    }
    // five arrivals, five trace entries, nothing else touched
    assert_eq!(labels(&trace), vec!["leaf", "leaf", "leaf", "leaf", "leaf"]);
    assert_eq!(work, vec![b]);
    assert_eq!(
        status,
        vec![
            Exploration::UnExplored,
            Exploration::UnExplored,
            Exploration::PartiallyExplored,
        ]
    );
}

#[test]
fn explored_arrival_is_traced_but_inert() {
    let mut m = Maze::new();
    let l = m.leaf("l");
    let r = m.leaf("r");
    let b = m.branch("b", l, r);
    let mut status = vec![
        Exploration::UnExplored,
        Exploration::UnExplored,
        Exploration::Explored,
    ];
    let mut work: Vec<usize> = Vec::new();
    let mut trace: Vec<String> = Vec::new();
    m.explore(b, &mut status, &mut work, &mut trace);
    assert_eq!(labels(&trace), vec!["b"]);
    assert_eq!(work, Vec::<usize>::new());
    assert_eq!(status[b], Exploration::Explored);
}
