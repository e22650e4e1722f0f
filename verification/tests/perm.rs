use parrd_sampling::perm_sampler::{generate_swaps, knuth_shuffle, par_permute_k, PermutationSampler};
use parrd_sampling::sampl_interface::Sampler;

use rand::thread_rng;
use rand::Rng;

fn seq_par_perm_eq_test(n: usize, k: usize) {
    let mut rng = thread_rng();
    let swap_targets: Vec<usize> = (0..n).map(|i| rng.gen_range(i..n)).collect();
    let xs: Vec<usize> = (0..n).collect();

    let seq_result = knuth_shuffle(&xs, k, &swap_targets);
    let par_result = par_permute_k(&xs, k, &swap_targets).unwrap();

    assert_eq!(&seq_result, &par_result);
}

#[test]
fn perm_par_is_seq_small_early() {
    seq_par_perm_eq_test(20, 10);
}

#[test]
fn perm_par_is_seq_small_full() {
    seq_par_perm_eq_test(20, 20);
}

#[test]
fn perm_par_is_seq_early() {
    let n = 10_000_000;
    let k = 500_000;
    seq_par_perm_eq_test(n, k);
}

#[test]
fn perm_par_is_seq_full() {
    let n = 10_000_000;
    seq_par_perm_eq_test(n, n);
}

#[test]
fn perm_par_is_seq_small() {
    let n = 20;
    let k = 10;
    let mut rng = thread_rng();
    let swap_targets: Vec<usize> = (0..n).map(|i| rng.gen_range(i..n)).collect();
    let xs: Vec<usize> = (0..n).collect();

    let seq_result = knuth_shuffle(&xs, k, &swap_targets);
    let par_result = par_permute_k(&xs, k, &swap_targets).unwrap();

    println!("{:?}", &swap_targets);

    assert_eq!(&seq_result, &par_result);
}

#[test]
fn swap_generation() {
    let n = 1_000_000;
    let swap_targets = generate_swaps(n);
    assert!(swap_targets
        .iter()
        .enumerate()
        .all(|(i, &target)| i <= target && target < n));
}

#[test]
fn perm_sampler_swap_generation() {
    let n = 1_000_000;
    let swap_targets = generate_swaps(n);
    assert!(swap_targets
        .iter()
        .enumerate()
        .all(|(i, &target)| i <= target && target < n));
}

#[test]
fn knuth_shuffle_exact() {
    let xs: Vec<i32> = vec![10, 20, 30, 40];
    let targets: Vec<usize> = vec![1, 1, 3, 3];
    // swaps in index order: (0,1) then (1,1) then (2,3) then (3,3)
    assert_eq!(knuth_shuffle(&xs, 4, &targets), vec![20, 10, 40, 30]);
    assert_eq!(knuth_shuffle(&xs, 2, &targets), vec![20, 10]);
    assert_eq!(knuth_shuffle(&xs, 0, &targets), Vec::<i32>::new());
}

#[test]
fn par_permute_matches_fixed() {
    let xs: Vec<i32> = vec![10, 20, 30, 40];
    let targets: Vec<usize> = vec![1, 1, 3, 3];
    assert_eq!(par_permute_k(&xs, 4, &targets).unwrap(), vec![20, 10, 40, 30]);
    assert_eq!(par_permute_k(&xs, 2, &targets).unwrap(), vec![20, 10]);
    assert_eq!(par_permute_k(&xs, 5, &targets), None);
}

#[test]
fn perm_idempotent() {
    let n = 1_000;
    let xs: Vec<usize> = (0..n).collect();
    let targets = generate_swaps(n);
    let first = par_permute_k(&xs, 300, &targets).unwrap();
    let second = par_permute_k(&xs, 300, &targets).unwrap();
    assert_eq!(first, second);
}

#[test]
fn perm_sampler_bounds() {
    let xs: Vec<i32> = (0..100).collect();
    assert!(PermutationSampler::sample(&xs, 101).is_none());
    assert_eq!(PermutationSampler::sample(&xs, 100).unwrap().len(), 100);
    assert_eq!(PermutationSampler::sample(&xs, 0).unwrap().len(), 0);
    assert_eq!(PermutationSampler::sample(&xs, 37).unwrap().len(), 37);
}
