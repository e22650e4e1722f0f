use parrd_sampling::naive_sampler::NaiveSampler;
use parrd_sampling::perm_sampler::{
    FullPermutationSampler, PermutationSampler, SeqPermutationSampler,
};
use parrd_sampling::priority_sampler::ParPrioritySampler;
use parrd_sampling::sampl_interface::Sampler;

#[test]
fn small_naive_sample() {
    let xs = vec![3, 5, 1, 2, 3, 8, 6, 3];
    let xs_sample = NaiveSampler::sample(&xs, 3);
    assert_eq!(xs_sample.unwrap().len(), 3);
}

#[test]
fn big_naive_sample() {
    let n = 1_000_000;
    let k = 10_000;
    let xs: Vec<i32> = (0..n).collect();
    let xs_sample = NaiveSampler::sample(&xs, k);
    assert_eq!(xs_sample.unwrap().len(), k);
}

#[test]
fn naive_rejects_oversized() {
    let xs: Vec<i32> = (0..10).collect();
    assert!(NaiveSampler::sample(&xs, 11).is_none());
    assert_eq!(NaiveSampler::sample(&xs, 10).unwrap().len(), 10);
}

#[test]
fn every_sampler_len() {
    let xs: Vec<i32> = (0..100).collect();
    for k in [0usize, 1, 50, 99, 100] {
        assert_eq!(NaiveSampler::sample(&xs, k).unwrap().len(), k);
        assert_eq!(SeqPermutationSampler::sample(&xs, k).unwrap().len(), k);
        assert_eq!(FullPermutationSampler::sample(&xs, k).unwrap().len(), k);
        assert_eq!(PermutationSampler::sample(&xs, k).unwrap().len(), k);
        assert_eq!(ParPrioritySampler::sample(&xs, k).unwrap().len(), k);
    }
}

#[test]
fn empty_population() {
    let xs: Vec<i32> = Vec::new();
    assert_eq!(NaiveSampler::sample(&xs, 0).unwrap().len(), 0);
    assert_eq!(SeqPermutationSampler::sample(&xs, 0).unwrap().len(), 0);
    assert_eq!(FullPermutationSampler::sample(&xs, 0).unwrap().len(), 0);
    assert_eq!(PermutationSampler::sample(&xs, 0).unwrap().len(), 0);
    assert_eq!(ParPrioritySampler::sample(&xs, 0).unwrap().len(), 0);
    assert!(NaiveSampler::sample(&xs, 1).is_none());
    assert!(PermutationSampler::sample(&xs, 1).is_none());
    assert!(ParPrioritySampler::sample(&xs, 1).is_none());
}

#[test]
fn every_sampler_rejects_oversized() {
    let xs: Vec<i32> = (0..100).collect();
    assert!(NaiveSampler::sample(&xs, 101).is_none());
    assert!(SeqPermutationSampler::sample(&xs, 101).is_none());
    assert!(FullPermutationSampler::sample(&xs, 101).is_none());
    assert!(PermutationSampler::sample(&xs, 101).is_none());
    assert!(ParPrioritySampler::sample(&xs, 101).is_none());
}
