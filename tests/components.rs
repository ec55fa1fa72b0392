use graph_relax::coordinator::{Coordinator, Phase};
use graph_relax::graph::{symmetric_edges, GraphError};
use graph_relax::labels::{connected_components_join, connected_components_shared, State};

fn ids(n: u64) -> Vec<u64> {
    (0..n).collect()
}

fn both(nodes: &Vec<u64>, edges: &Vec<(u64, u64)>, n: usize, budget: usize) -> State {
    let a = connected_components_join(nodes, edges, n, budget).unwrap();
    let b = connected_components_shared(nodes, edges, n, budget).unwrap();
    assert_eq!(a.component, b.component);
    assert_eq!(a.progress, b.progress);
    a
}

#[test]
fn two_disjoint_edges() {
    let s = both(&ids(4), &vec![(0, 1), (2, 3)], 4, 10);
    assert_eq!(s.component, vec![0, 0, 2, 2]);
    assert!(s.progress.converged());
    assert_eq!(s.progress.phase, Phase::Stopped);
}

#[test]
fn star_settles_after_one_iteration() {
    let edges = vec![(0, 1), (0, 2), (0, 3), (0, 4)];
    let s = both(&ids(5), &edges, 5, 1);
    assert_eq!(s.component, vec![0, 0, 0, 0, 0]);
    assert_eq!(s.progress.iteration_count, 1);
    let s = both(&ids(5), &edges, 5, 10);
    assert_eq!(s.component, vec![0, 0, 0, 0, 0]);
    assert_eq!(s.progress.iteration_count, 2);
    assert!(s.progress.converged());
}

#[test]
fn budget_one_on_diameter_three_halts_early() {
    let edges = vec![(0, 1), (1, 2), (2, 3)];
    let s = both(&ids(4), &edges, 4, 1);
    assert_eq!(s.component, vec![0, 0, 1, 2]);
    assert_eq!(s.progress.phase, Phase::Stopped);
    assert!(s.progress.changed);
    assert!(!s.progress.converged());
    assert_eq!(s.progress.iteration_count, 1);
}

#[test]
fn path_of_diameter_d_settles_in_d_rounds() {
    // a path 0 - 1 - ... - 6 listed from its far end, diameter 6
    let edges: Vec<(u64, u64)> = (0..6u64).rev().map(|i| (i + 1, i)).collect();
    let s = both(&ids(7), &edges, 7, 100);
    assert_eq!(s.component, vec![0; 7]);
    assert!(s.progress.converged());
    assert!(s.progress.iteration_count <= 7);
    // with exactly d rounds the labels are already final, only the flag is up
    let s = both(&ids(7), &edges, 7, 6);
    assert_eq!(s.component, vec![0; 7]);
}

#[test]
fn labels_name_components() {
    let edges = vec![(5, 3), (3, 7), (1, 4), (8, 1), (6, 6)];
    let s = both(&ids(9), &edges, 9, 50);
    assert_eq!(s.component, vec![0, 1, 2, 3, 1, 3, 6, 3, 1]);
    let components: [&[usize]; 6] = [&[0], &[1, 4, 8], &[2], &[3, 5, 7], &[6], &[]];
    for u in 0..9usize {
        for v in 0..9usize {
            let together = components.iter().any(|c| c.contains(&u) && c.contains(&v));
            assert_eq!(s.component[u] == s.component[v], together, "{u} {v}");
        }
    }
}

#[test]
fn strategies_agree_round_by_round() {
    let edges = vec![(9, 2), (2, 7), (7, 0), (4, 5), (5, 8), (8, 4), (1, 3), (6, 9)];
    let sym = symmetric_edges(&edges);
    let adj = graph_relax::adjacency::Adjacency::from_edges(&sym);
    let mut a = State::new(10, 20);
    let mut b = State::new(10, 20);
    while a.progress.is_running() {
        let before = a.component.clone();
        a.step_join(&sym);
        b.step_shared(&adj);
        assert_eq!(a.component, b.component);
        assert_eq!(a.progress, b.progress);
        for i in 0..10 {
            assert!(a.component[i] <= before[i]);
        }
    }
    assert_eq!(a.component, vec![0, 1, 0, 1, 4, 4, 0, 0, 4, 0]);
}

#[test]
fn another_iteration_after_convergence_changes_nothing() {
    let edges = vec![(3, 1), (1, 2), (4, 0)];
    let s = both(&ids(5), &edges, 5, 10);
    assert!(s.progress.converged());
    let sym = symmetric_edges(&edges);
    let mut again = State { component: s.component.clone(), progress: Coordinator::new(1) };
    again.step_join(&sym);
    assert_eq!(again.component, s.component);
    assert!(!again.progress.changed);
    let adj = graph_relax::adjacency::Adjacency::from_edges(&sym);
    let mut again = State { component: s.component.clone(), progress: Coordinator::new(1) };
    again.step_shared(&adj);
    assert_eq!(again.component, s.component);
    assert!(!again.progress.changed);
}

#[test]
fn zero_budget_runs_nothing() {
    let s = both(&ids(3), &vec![(0, 2)], 3, 0);
    assert_eq!(s.component, vec![0, 1, 2]);
    assert_eq!(s.progress.iteration_count, 0);
    assert!(!s.progress.changed);
}

#[test]
fn isolated_nodes_keep_their_ids() {
    let s = both(&ids(4), &vec![], 4, 3);
    assert_eq!(s.component, vec![0, 1, 2, 3]);
    assert_eq!(s.progress.iteration_count, 1);
    let s = both(&vec![], &vec![], 0, 3);
    assert!(s.component.is_empty());
    assert!(s.progress.converged());
}

#[test]
fn result_pairs_list_every_node() {
    let s = both(&vec![2, 0, 1], &vec![(2, 1)], 3, 5);
    assert_eq!(s.result_pairs(), vec![(0, 0), (1, 1), (2, 1)]);
}

#[test]
fn node_count_mismatch_is_rejected() {
    let e = GraphError::NodeCountMismatch { expected: 4, found: 3 };
    assert_eq!(connected_components_join(&ids(3), &vec![], 4, 5).err(), Some(e));
    assert_eq!(connected_components_shared(&ids(3), &vec![], 4, 5).err(), Some(e));
}

#[test]
fn node_out_of_range_is_rejected() {
    let e = GraphError::NodeOutOfRange { node: 7 };
    assert_eq!(connected_components_join(&vec![0, 7, 1], &vec![], 3, 5).err(), Some(e));
    assert_eq!(connected_components_shared(&vec![0, 7, 1], &vec![], 3, 5).err(), Some(e));
}

#[test]
fn duplicate_node_is_rejected() {
    let e = GraphError::DuplicateNode { node: 1 };
    assert_eq!(connected_components_join(&vec![1, 0, 1], &vec![], 3, 5).err(), Some(e));
    assert_eq!(connected_components_shared(&vec![1, 0, 1], &vec![], 3, 5).err(), Some(e));
}

#[test]
fn edge_out_of_range_is_rejected() {
    let e = GraphError::EdgeOutOfRange { source: 1, target: 3 };
    let edges = vec![(0, 1), (1, 3), (4, 0)];
    assert_eq!(connected_components_join(&ids(3), &edges, 3, 5).err(), Some(e));
    assert_eq!(connected_components_shared(&ids(3), &edges, 3, 5).err(), Some(e));
}
