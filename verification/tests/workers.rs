use maze::concurrent::explore_concurrent;
use maze::graph::maze;
use maze::graph::Maze;
use maze::traversal::explore_sequential;

fn count(trace: &Vec<String>, label: &str) -> usize {
    trace.iter().filter(|s| s.as_str() == label).count()
}

#[test]
fn single_worker_equals_sequential_oracle() {
    let (m, root) = maze();
    let sequential = explore_sequential(&m, root);
    let schedules: Vec<Vec<usize>> = vec![
        vec![],
        vec![0; 40],
        vec![7, 3, 5, 1, 0, 2],
    ];
    for schedule in schedules {
        let trace = explore_concurrent(&m, root, 1, &schedule);
        assert_eq!(trace, sequential);
    }
}

#[test]
fn four_workers_trace_has_expected_multiset() {
    let (m, root) = maze();
    let schedules: Vec<Vec<usize>> = vec![
        vec![],
        vec![0, 1, 2, 3, 0, 1, 2, 3, 0, 1, 2, 3, 0, 1, 2, 3, 0, 1, 2, 3, 0, 1, 2, 3],
        vec![0, 0, 1, 1, 2, 2, 3, 3, 0, 0, 1, 1, 2, 2, 3, 3],
        vec![3, 2, 1, 0, 3, 2, 1, 0, 3, 2, 1, 0],
        vec![1, 1, 1, 1, 1, 1, 1, 1, 1, 1, 1, 1, 1, 1, 1, 1, 1, 1, 1, 1, 1, 1, 0, 2],
    ];
    for schedule in schedules {
        let trace = explore_concurrent(&m, root, 4, &schedule);
        // one entry per arrival: shared nodes "3" and "5" arrive twice
        assert_eq!(count(&trace, "0"), 1);
        assert_eq!(count(&trace, "1"), 1);
        assert_eq!(count(&trace, "2"), 1);
        assert_eq!(count(&trace, "3"), 2);
        assert_eq!(count(&trace, "4"), 1);
        assert_eq!(count(&trace, "5"), 2);
        assert_eq!(count(&trace, "6"), 1);
        assert_eq!(count(&trace, "7"), 1);
        assert_eq!(count(&trace, "8"), 1);
        assert_eq!(trace.len(), 11);
    }
}

#[test]
fn every_reachable_label_appears() {
    let (m, root) = maze();
    for workers in 1..=6usize {
        let schedule: Vec<usize> = (0..32).map(|i| i * 13 % 7).collect();
        let trace = explore_concurrent(&m, root, workers, &schedule);
        for label in ["0", "1", "2", "3", "4", "5", "6", "7", "8"] {
            assert!(count(&trace, label) >= 1, "label {} missing", label);
        }
    }
}

#[test]
fn workers_trace_length_is_bounded() {
    let (m, root) = maze();
    let schedule: Vec<usize> = vec![2, 0, 1, 2, 0, 1, 2, 0, 1];
    for workers in 1..=3usize {
        let trace = explore_concurrent(&m, root, workers, &schedule);
        // five branches: at most 1 + 3 * 5 arrivals
        assert!(trace.len() <= 16);
    }
}

#[test]
fn many_workers_on_single_leaf() {
    let mut m = Maze::new();
    let leaf = m.leaf("only");
    let schedule: Vec<usize> = vec![4, 2, 0];
    let trace = explore_concurrent(&m, leaf, 8, &schedule);
    assert_eq!(trace, vec!["only".to_string()]);
}

#[test]
fn deep_chain_completes_for_every_worker_count() {
    // a left-leaning chain of branches over one leaf
    let mut m = Maze::new();
    let mut below = m.leaf("bottom");
    for i in 0..20usize {
        let right = m.leaf(&format!("leaf{}", i));
        below = m.branch(&format!("branch{}", i), below, right);
    }
    let sequential = explore_sequential(&m, below);
    for workers in 1..=4usize {
        let schedule: Vec<usize> = (0..64).map(|i| i % workers).collect();
        let trace = explore_concurrent(&m, below, workers, &schedule);
        assert_eq!(trace.len(), sequential.len());
        for s in &sequential {
            assert!(trace.contains(s));
        }
    }
}
