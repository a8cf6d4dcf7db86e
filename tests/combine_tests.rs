use llp::combine::combine;
use std::collections::HashSet;

#[test]
fn combine_six_pairs() {
    let mut result = vec![0, 0, 1, 1, 2, 2];
    let labels = vec![0, 1, 0, 1, 0, 1];
    let mut temp = vec![0; 6];
    let k = combine(&mut result, &labels, &mut temp);
    assert_eq!(k, 6);
    assert_eq!(result, vec![0, 3, 1, 4, 2, 5]);
    // temp holds the vertices in key order
    assert_eq!(temp, vec![0, 2, 4, 1, 3, 5]);
}

#[test]
fn combine_is_dense() {
    let mut result = vec![7, 7, 3, 3, 9, 1, 1, 1];
    let labels = vec![2, 2, 2, 5, 5, 0, 0, 1];
    let mut temp = vec![0; 8];
    let k = combine(&mut result, &labels, &mut temp);
    let values: HashSet<usize> = result.iter().copied().collect();
    assert_eq!(values, (0..k).collect::<HashSet<usize>>());
}

#[test]
fn combine_refines_both() {
    let before = vec![4, 4, 4, 1, 1, 0, 0, 2];
    let labels = vec![0, 1, 0, 3, 3, 3, 6, 6];
    let mut result = before.clone();
    let mut temp = vec![0; 8];
    combine(&mut result, &labels, &mut temp);
    for u in 0..8 {
        for v in 0..8 {
            let same = before[u] == before[v] && labels[u] == labels[v];
            assert_eq!(result[u] == result[v], same);
        }
    }
}

#[test]
fn combine_count_at_least_inputs() {
    let before = vec![0, 1, 2, 3, 0, 1];
    let labels = vec![0, 0, 0, 0, 5, 5];
    let mut result = before.clone();
    let mut temp = vec![0; 6];
    let k = combine(&mut result, &labels, &mut temp);
    let a: HashSet<usize> = before.iter().copied().collect();
    let b: HashSet<usize> = labels.iter().copied().collect();
    assert!(k >= a.len());
    assert!(k >= b.len());
    assert_eq!(k, 6);
}

#[test]
fn combine_identity_with_anything_keeps_identity_classes() {
    let mut result: Vec<usize> = (0..10).collect();
    let labels = vec![3, 3, 3, 0, 0, 9, 9, 9, 9, 1];
    let mut temp = vec![0; 10];
    let k = combine(&mut result, &labels, &mut temp);
    assert_eq!(k, 10);
    let values: HashSet<usize> = result.iter().copied().collect();
    assert_eq!(values.len(), 10);
}

#[test]
fn combine_single_vertex() {
    let mut result = vec![0];
    let labels = vec![0];
    let mut temp = vec![0];
    assert_eq!(combine(&mut result, &labels, &mut temp), 1);
    assert_eq!(result, vec![0]);
}
