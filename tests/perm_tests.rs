use llp::perm::{identity, invert_in_place, reset_identity};
use rand::seq::SliceRandom;

#[test]
fn test_invert_in_place() {
    let mut v = (0..1000).collect::<Vec<_>>();
    v.shuffle(&mut rand::thread_rng());
    let mut w = v.clone();
    invert_in_place(&mut w);
    for i in 0..v.len() {
        assert_eq!(w[v[i]], i);
    }
}

#[test]
fn invert_small_cycle() {
    let mut p = vec![3, 0, 1, 2];
    invert_in_place(&mut p);
    assert_eq!(p, vec![1, 2, 3, 0]);
}

#[test]
fn invert_twice_gives_back() {
    let mut v = (0..257).collect::<Vec<usize>>();
    v.shuffle(&mut rand::thread_rng());
    let mut w = v.clone();
    invert_in_place(&mut w);
    invert_in_place(&mut w);
    assert_eq!(w, v);
}

#[test]
fn invert_identity_and_empty() {
    let mut p = identity(5);
    invert_in_place(&mut p);
    assert_eq!(p, vec![0, 1, 2, 3, 4]);
    let mut e: Vec<usize> = vec![];
    invert_in_place(&mut e);
    assert!(e.is_empty());
}

#[test]
fn invert_with_fixed_points_and_cycles() {
    let mut p = vec![0, 2, 1, 5, 3, 4];
    invert_in_place(&mut p);
    assert_eq!(p, vec![0, 2, 1, 4, 5, 3]);
}

#[test]
fn reset_identity_overwrites() {
    let mut p = vec![9, 9, 9];
    reset_identity(&mut p);
    assert_eq!(p, vec![0, 1, 2]);
}
