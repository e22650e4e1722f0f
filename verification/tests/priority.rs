use parrd_sampling::priority_sampler::{
    priority_select, priority_select_seq, ParPrioritySampler, SeqPrioritySampler,
};
use parrd_sampling::sampl_interface::Sampler;

#[test]
fn ps_test_len() {
    let k = 50_000;
    let sample_size = 10_000_000;
    let population = (0..sample_size).collect::<Vec<i32>>();
    let samples = ParPrioritySampler::sample(&population, k);

    assert_eq!(k, samples.unwrap().len());
}

#[test]
fn priority_sampler_ps_test_len() {
    let k = 50_000;
    let sample_size = 10_000_000;
    let population = (0..sample_size).collect::<Vec<i32>>();
    let samples = ParPrioritySampler::sample(&population, k);

    assert_eq!(k, samples.unwrap().len());
}

#[test]
fn ps_rd_test_len() {
    let k = 500_000;
    let sample_size = 10_000_000;
    let population = (0..sample_size)
        .map(|_| rand::random::<i32>())
        .collect::<Vec<i32>>();
    let samples = ParPrioritySampler::sample(&population, k);

    assert_eq!(k, samples.unwrap().len());
}

#[test]
fn priority_sampler_ps_rd_test_len() {
    let k = 50_000;
    let sample_size = 10_000_000;
    let population = (0..sample_size)
        .map(|_| rand::random::<i32>())
        .collect::<Vec<i32>>();
    let samples = ParPrioritySampler::sample(&population, k);

    assert_eq!(k, samples.unwrap().len());
}

#[test]
fn priority_sample_len_small() {
    let population = (0..100_000).collect::<Vec<i32>>();
    let samples = ParPrioritySampler::sample(&population, 10);
    assert_eq!(samples.unwrap().len(), 10);
}

#[test]
fn priority_exact_descending() {
    // Descending keys: the k smallest keys sit on the last k positions, so
    // the sample is the tail of the population in index order.
    let n: usize = 10;
    let arr: Vec<i32> = (0..n as i32).collect();
    let keys: Vec<u64> = (0..n).map(|i| (n - i) as u64).collect();
    assert_eq!(priority_select(&arr, &keys, 3), vec![7, 8, 9]);
    assert_eq!(priority_select_seq(&arr, &keys, 3), vec![7, 8, 9]);
}

#[test]
fn priority_exact_with_ties() {
    // All keys equal: ties break by position, so the sample is the first k
    // elements in index order.
    let arr: Vec<i32> = vec![5, 6, 7, 8, 9];
    let keys: Vec<u64> = vec![42, 42, 42, 42, 42];
    assert_eq!(priority_select(&arr, &keys, 2), vec![5, 6]);
    assert_eq!(priority_select_seq(&arr, &keys, 2), vec![5, 6]);
}

#[test]
fn priority_select_idempotent() {
    let n: usize = 300;
    let arr: Vec<i32> = (0..n as i32).collect();
    let keys: Vec<u64> = (0..n).map(|i| ((i as u64) * 2_654_435_761) % 1_000).collect();
    let a = priority_select(&arr, &keys, 40);
    let b = priority_select(&arr, &keys, 40);
    let c = priority_select_seq(&arr, &keys, 40);
    assert_eq!(a, b);
    assert_eq!(a, c);
}

#[test]
fn priority_join_path() {
    // Large enough that classification crosses the fork-join cutoff.
    let n: usize = 5_000;
    let arr: Vec<u64> = (0..n as u64).collect();
    let keys: Vec<u64> = (0..n).map(|i| (n - i) as u64).collect();
    let expected: Vec<u64> = ((n as u64 - 5)..n as u64).collect();
    assert_eq!(priority_select(&arr, &keys, 5), expected);
}

#[test]
fn priority_k_bounds() {
    let population: Vec<i32> = (0..50).collect();
    assert!(ParPrioritySampler::sample(&population, 51).is_none());
    assert!(SeqPrioritySampler::sample(&population, 51).is_none());
    assert_eq!(
        ParPrioritySampler::sample(&population, 50).unwrap(),
        population
    );
    assert_eq!(
        SeqPrioritySampler::sample(&population, 50).unwrap(),
        population
    );
    assert_eq!(ParPrioritySampler::sample(&population, 0).unwrap().len(), 0);
    assert_eq!(SeqPrioritySampler::sample(&population, 0).unwrap().len(), 0);
    assert_eq!(SeqPrioritySampler::sample(&population, 7).unwrap().len(), 7);
}
