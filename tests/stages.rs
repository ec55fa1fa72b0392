use graph_relax::adjacency::Adjacency;
use graph_relax::coordinator::{Coordinator, Phase};
use graph_relax::graph::{symmetric_edges, validate, GraphError};
use graph_relax::labels::{
    broadcast_candidates, broadcast_round, join_candidates, join_round, keep_improvements,
    reduce_min, State,
};

#[test]
fn symmetric_edges_follow_each_pair_with_its_reverse() {
    assert_eq!(symmetric_edges(&vec![(0, 1), (3, 2)]), vec![(0, 1), (1, 0), (3, 2), (2, 3)]);
    assert!(symmetric_edges(&vec![]).is_empty());
}

#[test]
fn adjacency_groups_by_source_in_order() {
    let adj = Adjacency::from_edges(&vec![(1, 2), (0, 3), (1, 0), (1, 2)]);
    assert_eq!(adj.neighbours(1), Some(&vec![2, 0, 2]));
    assert_eq!(adj.neighbours(0), Some(&vec![3]));
    assert_eq!(adj.neighbours(2), None);
    assert_eq!(adj.out_degree(1), 3);
    assert_eq!(adj.out_degree(0), 1);
    assert_eq!(adj.out_degree(9), 0);
}

#[test]
fn join_candidates_pair_target_with_source_label() {
    let labels = vec![0, 0, 2, 1];
    let edges = vec![(2, 3), (3, 2), (1, 0)];
    assert_eq!(join_candidates(&labels, &edges), vec![(3, 2), (2, 1), (0, 0)]);
}

#[test]
fn broadcast_candidates_skip_neighbours_that_cannot_improve() {
    let labels = vec![0, 1, 2, 1];
    let adj = Adjacency::from_edges(&symmetric_edges(&vec![(0, 2), (1, 3), (2, 3)]));
    // node 0 offers 0 to 2; node 1 offers 1 to 3; node 2 offers 2 to 3 only;
    // node 3 (label 1) offers 1 to 2
    assert_eq!(broadcast_candidates(&labels, &adj), vec![(2, 0), (3, 1), (3, 2), (2, 1)]);
}

#[test]
fn reduce_min_keeps_least_per_node_in_id_order() {
    let cands = vec![(3, 5), (1, 4), (3, 2), (1, 7), (3, 9)];
    assert_eq!(reduce_min(&cands, 5), vec![(1, 4), (3, 2)]);
    assert!(reduce_min(&vec![], 5).is_empty());
}

#[test]
fn keep_improvements_drops_ties_and_rises() {
    let labels = vec![0, 1, 2, 3];
    let pairs = vec![(1, 0), (2, 2), (3, 4), (3, 1)];
    assert_eq!(keep_improvements(&pairs, &labels), vec![(1, 0), (3, 1)]);
}

#[test]
fn one_round_of_each_strategy() {
    let sym = symmetric_edges(&vec![(0, 1), (1, 2), (3, 2)]);
    let labels = vec![0, 1, 2, 3];
    assert_eq!(join_round(&labels, &sym), vec![(1, 0), (2, 1), (3, 2)]);
    let adj = Adjacency::from_edges(&sym);
    assert_eq!(broadcast_round(&labels, &adj), vec![(1, 0), (2, 1), (3, 2)]);
}

#[test]
fn apply_folds_changes_and_raises_flag() {
    let mut s = State::new(4, 3);
    assert_eq!(s.component, vec![0, 1, 2, 3]);
    s.apply(&vec![]);
    assert!(!s.progress.changed);
    s.apply(&vec![(3, 1), (2, 0)]);
    assert_eq!(s.component, vec![0, 1, 0, 1]);
    assert!(s.progress.changed);
}

#[test]
fn coordinator_transitions() {
    assert_eq!(Coordinator::new(0).phase, Phase::Stopped);
    let mut c = Coordinator::new(2);
    assert!(c.is_running());
    c.note_changes(true);
    c.note_changes(false);
    assert!(c.changed);
    assert!(c.end_iteration());
    assert_eq!(c.iteration_count, 1);
    assert!(!c.changed);
    c.note_changes(true);
    assert!(!c.end_iteration());
    assert_eq!(c.phase, Phase::Stopped);
    assert!(c.changed);
    assert!(!c.converged());
    let mut c = Coordinator::new(5);
    assert!(!c.end_iteration());
    assert!(c.converged());
}

#[test]
fn validate_checks_in_order() {
    assert_eq!(validate(&vec![0, 1], &vec![(0, 1)], 2), Ok(()));
    assert_eq!(
        validate(&vec![0, 9], &vec![(0, 5)], 3),
        Err(GraphError::NodeCountMismatch { expected: 3, found: 2 })
    );
    assert_eq!(validate(&vec![0, 0, 9], &vec![], 3), Err(GraphError::DuplicateNode { node: 0 }));
    assert_eq!(validate(&vec![0, 9, 9], &vec![], 3), Err(GraphError::NodeOutOfRange { node: 9 }));
    assert_eq!(
        validate(&vec![2, 1, 0], &vec![(5, 0), (0, 6)], 3),
        Err(GraphError::EdgeOutOfRange { source: 5, target: 0 })
    );
}
