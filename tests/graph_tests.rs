use llp::gap_cost::{gap_bits, log_gap_cost};
use llp::graph::{transpose_arc_list, Graph};
use llp::label_store::LabelStore;
use llp::preds::{PredParams, StopRule};
use llp::schedule::ranges;

fn path(n: usize) -> Graph {
    let mut adj = vec![vec![]; n];
    for v in 0..n {
        if v > 0 {
            adj[v].push(v - 1);
        }
        if v + 1 < n {
            adj[v].push(v + 1);
        }
    }
    Graph::new(adj).unwrap()
}

#[test]
fn graph_rejects_bad_successor() {
    assert!(Graph::new(vec![vec![1], vec![2]]).is_none());
    let g = Graph::new(vec![vec![1], vec![0], vec![]]).unwrap();
    assert_eq!(g.num_nodes(), 3);
    assert_eq!(g.num_arcs(), 2);
    assert_eq!(g.outdegree(2), 0);
    assert_eq!(g.successor(0, 0), 1);
    assert_eq!(g.cumulative(2), 2);
}

#[test]
fn succ_finds_first_reaching_vertex() {
    let g = path(5);
    // cumulative out-degrees: 0, 1, 3, 5, 7, 8
    assert_eq!(g.succ(0), 0);
    assert_eq!(g.succ(2), 2);
    assert_eq!(g.succ(3), 2);
    assert_eq!(g.succ(6), 4);
    assert_eq!(g.succ(100), 5);
}

#[test]
fn ranges_cover_every_vertex_once() {
    let g = path(10);
    let r = ranges(&g, 4);
    assert_eq!(r[0].0, 0);
    assert_eq!(r[r.len() - 1].1, 10);
    for w in r.windows(2) {
        assert_eq!(w[0].1, w[1].0);
    }
    assert_eq!(r, vec![(0, 3), (3, 5), (5, 7), (7, 9), (9, 10)]);
    // a granularity of zero still gives ranges of at least one vertex
    assert_eq!(ranges(&g, 0).len(), 10);
    let empty = Graph::new(vec![]).unwrap();
    assert!(ranges(&empty, 4).is_empty());
}

#[test]
fn transpose_swaps_each_arc() {
    let arcs = vec![(0, 1), (2, 5), (3, 3)];
    assert_eq!(transpose_arc_list(arcs), vec![(1, 0), (5, 2), (3, 3)]);
}

#[test]
fn gap_bits_values() {
    assert_eq!(gap_bits(0), 0);
    assert_eq!(gap_bits(1), 1);
    assert_eq!(gap_bits(2), 2);
    assert_eq!(gap_bits(3), 2);
    assert_eq!(gap_bits(4), 3);
    assert_eq!(gap_bits(1000), 10);
    assert_eq!(gap_bits(usize::MAX), usize::BITS as usize);
}

#[test]
fn log_gap_cost_of_path() {
    let g = path(4);
    let id: Vec<usize> = (0..4).collect();
    // 0:[1] -> 1; 1:[0,2] -> 1 + 2; 2:[1,3] -> 1 + 2; 3:[2] -> 1
    assert_eq!(log_gap_cost(&g, &id), 8);
    let rev = vec![3, 2, 1, 0];
    assert_eq!(log_gap_cost(&g, &rev), 8);
    let scrambled = vec![0, 3, 1, 2];
    // 0 at 0: [3] -> 2; 1 at 3: [0, 1] -> 2 + 1; 2 at 1: [3, 2] -> 2 + 1; 3 at 2: [1] -> 1
    assert_eq!(log_gap_cost(&g, &scrambled), 9);
}

#[test]
fn label_store_volumes() {
    let mut s = LabelStore::new(4);
    assert_eq!(s.len(), 4);
    assert_eq!(s.label(2), 2);
    assert_eq!(s.volume(2), 1);
    assert_eq!(s.volume_fetch_sub(2), 1);
    assert_eq!(s.volume(2), 0);
    s.volume_set(0, 3);
    assert_eq!(s.label(0), 3);
    assert_eq!(s.volume(0), 0);
    assert_eq!(s.volume(3), 2);
    let total: usize = (0..4).map(|l| s.volume(l)).sum();
    assert_eq!(total, 3);
    s.volume_set(1, 3);
    let total: usize = (0..4).map(|l| s.volume(l)).sum();
    assert_eq!(total, 3);
    // a read below zero wraps
    assert_eq!(s.volume_fetch_sub(0), 0);
    assert_eq!(s.volume(0), usize::MAX);
    s.init();
    assert_eq!(s.labels(), &vec![0, 1, 2, 3]);
    assert!((0..4).all(|l| s.volume(l) == 1));
}

#[test]
fn stop_rule_criteria() {
    let p = PredParams { num_nodes: 10, num_arcs: 20, gain_delta: 1, gain_total: 100, modified: 5, update: 0 };
    assert!(!StopRule::max_updates(5).eval(&p));
    assert!(StopRule::max_updates(1).eval(&p));
    assert!(StopRule::max_updates(0).eval(&p));
    let gain = StopRule { max_updates: 100, min_gain: Some((1, 100)), min_modified: None };
    assert!(gain.eval(&p));
    let gain_strict = StopRule { max_updates: 100, min_gain: Some((1, 1000)), min_modified: None };
    assert!(!gain_strict.eval(&p));
    let zero_total = PredParams { gain_total: 0, gain_delta: 0, ..p };
    assert!(!gain.eval(&zero_total));
    let modified = StopRule { max_updates: 100, min_gain: None, min_modified: Some(5) };
    assert!(modified.eval(&p));
    let modified_low = StopRule { max_updates: 100, min_gain: None, min_modified: Some(4) };
    assert!(!modified_low.eval(&p));
}
