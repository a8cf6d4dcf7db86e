use llp::combine::combine;
use llp::graph::Graph;
use llp::label_store::LabelStore;
use llp::preds::StopRule;
use llp::propagation::{
    combine_labellings, gamma_labellings, labelling_cost, layered_label_propagation, llp_pass,
    propagate, update_node, Gamma, LlpError,
};
use llp::schedule::ranges;
use rand::rngs::SmallRng;
use rand::SeedableRng;
use std::collections::HashSet;

fn graph(n: usize, edges: &[(usize, usize)]) -> Graph {
    let mut adj = vec![vec![]; n];
    for &(a, b) in edges {
        adj[a].push(b);
        adj[b].push(a);
    }
    Graph::new(adj).unwrap()
}

fn two_cliques() -> Graph {
    let mut e = vec![];
    for base in [0, 4] {
        for a in 0..4 {
            for b in a + 1..4 {
                e.push((base + a, base + b));
            }
        }
    }
    graph(8, &e)
}

fn path(n: usize) -> Graph {
    let e: Vec<(usize, usize)> = (1..n).map(|v| (v - 1, v)).collect();
    graph(n, &e)
}

fn star(n: usize) -> Graph {
    let e: Vec<(usize, usize)> = (1..n).map(|v| (0, v)).collect();
    graph(n, &e)
}

fn gammas() -> Vec<Gamma> {
    let mut g = vec![Gamma { num: 0, den: 1 }];
    for i in 0..=10u32 {
        g.push(Gamma { num: 1, den: 1 << i });
    }
    g
}

fn distinct(v: &[usize]) -> usize {
    v.iter().copied().collect::<HashSet<usize>>().len()
}

#[test]
fn two_cliques_get_two_labels() {
    let g = two_cliques();
    let mut store = LabelStore::new(8);
    let mut seed = 0u64;
    let rule = StopRule::max_updates(100);
    let passes = propagate(&g, &mut store, Gamma { num: 1, den: 10 }, 1_000_000, 1024, &mut seed, &rule);
    assert!(passes <= 3, "{} passes", passes);
    let labels = store.labels().clone();
    assert_eq!(distinct(&labels), 2);
    assert!(labels[0..4].iter().all(|&l| l == labels[0]));
    assert!(labels[4..8].iter().all(|&l| l == labels[4]));
    let r = layered_label_propagation(&g, &vec![Gamma { num: 1, den: 10 }], 1_000_000, None, 0, &rule).unwrap();
    // the order by label puts each clique in a block
    let mut order: Vec<usize> = (0..8).collect();
    order.sort_by_key(|&v| (r[v], v));
    let first: HashSet<usize> = order[0..4].iter().copied().collect();
    assert!(first == (0..4).collect() || first == (4..8).collect());
}

#[test]
fn path_labels_are_stripes() {
    let g = path(16);
    let rule = StopRule::max_updates(100);
    let r = layered_label_propagation(&g, &gammas(), 1_000_000, None, 42, &rule).unwrap();
    assert_eq!(r.len(), 16);
    // every class is a run of consecutive vertices
    for l in r.iter().copied().collect::<HashSet<usize>>() {
        let members: Vec<usize> = (0..16).filter(|&v| r[v] == l).collect();
        assert_eq!(members.last().unwrap() - members[0] + 1, members.len());
    }
    let identity: Vec<usize> = (0..16).collect();
    assert!(labelling_cost(&g, &r) <= labelling_cost(&g, &identity));
}

#[test]
fn isolated_vertices_never_move() {
    let g = graph(10, &[]);
    let mut store = LabelStore::new(10);
    let mut can_change = vec![true; 10];
    let order: Vec<usize> = (0..10).rev().collect();
    let parts = ranges(&g, 1024);
    let mut counts = vec![0; 10];
    let (modified, gain) =
        llp_pass(&g, &mut store, &mut can_change, &order, &parts, Gamma { num: 1, den: 2 }, &mut counts);
    assert_eq!(modified, 0);
    assert_eq!(gain, 0);
    assert_eq!(store.labels(), &(0..10).collect::<Vec<usize>>());
    let rule = StopRule::max_updates(100);
    let r = layered_label_propagation(&g, &gammas(), 3, None, 7, &rule).unwrap();
    assert_eq!(r, (0..10).collect::<Vec<usize>>());
    let mut seed = 0u64;
    let passes = propagate(&g, &mut store, Gamma { num: 1, den: 4 }, 3, 1024, &mut seed, &rule);
    assert_eq!(passes, 1);
    let mut result = r.clone();
    let other = vec![0, 0, 1, 1, 2, 2, 3, 3, 4, 4];
    let mut temp = vec![0; 10];
    assert_eq!(combine(&mut result, &other, &mut temp), 10);
    assert_eq!(distinct(&result), 10);
}

#[test]
fn single_thread_runs_repeat() {
    let g = two_cliques();
    let rule = StopRule::max_updates(50);
    let a = gamma_labellings(&g, &gammas(), 3, Some(4), 11, &rule).unwrap();
    let b = gamma_labellings(&g, &gammas(), 3, Some(4), 11, &rule).unwrap();
    assert_eq!(a.0, b.0);
    assert_eq!(a.1, b.1);
    let p = path(16);
    let x = layered_label_propagation(&p, &gammas(), 5, None, 3, &rule).unwrap();
    let y = layered_label_propagation(&p, &gammas(), 5, None, 3, &rule).unwrap();
    assert_eq!(x, y);
}

#[test]
fn combined_cost_not_above_best() {
    let rule = StopRule::max_updates(100);
    for g in [star(9), path(16), two_cliques()] {
        let (saved, costs) = gamma_labellings(&g, &gammas(), 1_000_000, None, 5, &rule).unwrap();
        let r = combine_labellings(&saved, &costs);
        for u in 0..r.len() {
            for v in 0..r.len() {
                let all = saved.iter().all(|s| s[u] == s[v]);
                assert_eq!(r[u] == r[v], all);
            }
        }
        let best = *costs.iter().min().unwrap();
        assert!(labelling_cost(&g, &r) <= best);
        for s in &saved {
            for u in 0..r.len() {
                for v in 0..r.len() {
                    if r[u] == r[v] {
                        assert_eq!(s[u], s[v]);
                    }
                }
            }
        }
    }
}

#[test]
fn combine_labellings_orders_by_cost() {
    let saved = vec![vec![0, 0, 1, 1], vec![0, 1, 1, 1]];
    let costs = vec![5, 9];
    let r = combine_labellings(&saved, &costs);
    assert_eq!(distinct(&r), 3);
    assert_eq!(r[2], r[3]);
    assert_ne!(r[0], r[1]);
    assert_ne!(r[1], r[2]);
}

#[test]
fn labelling_cost_follows_label_order() {
    let g = path(4);
    // order by label: 3, 2, 1, 0 is the path reversed, same cost as identity
    assert_eq!(labelling_cost(&g, &vec![3, 2, 1, 0]), 8);
    // labels [0, 1, 0, 1] order 0, 2, 1, 3: positions 0, 2, 1, 3
    assert_eq!(labelling_cost(&g, &vec![0, 1, 0, 1]), 9);
}

#[test]
fn update_node_takes_majority_label() {
    // vertex 0 sees labels 1, 1 (vertices 1 and 2 carry label 1) and 3
    let g = graph(4, &[(0, 1), (0, 2), (0, 3), (1, 2)]);
    let mut store = LabelStore::new(4);
    store.volume_set(2, 1);
    let mut counts = vec![0; 4];
    let mut rng = SmallRng::seed_from_u64(0);
    let (changed, gain) = update_node(&g, &mut store, 0, Gamma { num: 0, den: 1 }, &mut counts, &mut rng);
    assert!(changed);
    assert_eq!(store.label(0), 1);
    // with γ = 0 the score is the count: 2 against 0 for the own label
    assert_eq!(gain, 2);
    assert_eq!(counts, vec![0; 4]);
    // each candidate was read once (0, 1, 3), then 0 moved to 1
    assert_eq!(store.volume(0), usize::MAX);
    assert_eq!(store.volume(1), 2);
    assert_eq!(store.volume(2), 0);
    assert_eq!(store.volume(3), 0);
}

#[test]
fn update_node_score_uses_volume() {
    // γ = 1: label 1 has count 1 and volume 3; label 2 has count 1 and volume 1
    let g = graph(6, &[(0, 1), (0, 2), (3, 4), (3, 5)]);
    let mut store = LabelStore::new(6);
    store.volume_set(3, 1);
    store.volume_set(4, 1);
    let mut counts = vec![0; 6];
    let mut rng = SmallRng::seed_from_u64(1);
    let (changed, gain) = update_node(&g, &mut store, 0, Gamma { num: 1, den: 1 }, &mut counts, &mut rng);
    // scores: label 1: 2·1 − 4 = −2; label 2: 2·1 − 2 = 0; own label 0: 0 − 2 = −2
    assert!(changed);
    assert_eq!(store.label(0), 2);
    assert_eq!(gain, 2);
}

#[test]
fn invalid_inputs_are_refused() {
    let g = path(4);
    let rule = StopRule::max_updates(10);
    let one = vec![Gamma { num: 1, den: 2 }];
    assert_eq!(layered_label_propagation(&g, &vec![], 10, None, 0, &rule), Err(LlpError::InvalidInput));
    assert_eq!(layered_label_propagation(&g, &one, 0, None, 0, &rule), Err(LlpError::InvalidInput));
    assert_eq!(
        layered_label_propagation(&g, &vec![Gamma { num: 1, den: 0 }], 10, None, 0, &rule),
        Err(LlpError::InvalidInput)
    );
    let empty = Graph::new(vec![]).unwrap();
    assert_eq!(layered_label_propagation(&empty, &one, 10, None, 0, &rule), Err(LlpError::InvalidInput));
    assert!(layered_label_propagation(&g, &one, 10, None, 0, &rule).is_ok());
}
