use parrd_sampling::prefix_scan::par_scan;

use rand::seq::SliceRandom;

#[test]
fn prefix_sum() {
    let sample_size = 1_000;
    let mut population = (0..sample_size).collect::<Vec<usize>>();
    let mut rng = rand::thread_rng();
    population.shuffle(&mut rng);

    let mut acc = 0;
    let mut seq_ps: Vec<usize> = Vec::with_capacity(sample_size);
    population.iter().for_each(|elm| {
        seq_ps.push(acc);
        acc += elm;
    });

    let (ps, partials) = par_scan(&population);

    assert_eq!(acc, ps);
    assert_eq!(&seq_ps, &partials);
}

#[test]
fn priority_sampler_prefix_sum() {
    let sample_size = 1_000;
    let mut population = (0..sample_size).map(|x| 2 * x + 1).collect::<Vec<usize>>();
    let mut rng = rand::thread_rng();
    population.shuffle(&mut rng);

    let mut acc = 0;
    let mut seq_ps: Vec<usize> = Vec::with_capacity(sample_size);
    population.iter().for_each(|elm| {
        seq_ps.push(acc);
        acc += elm;
    });

    let (ps, partials) = par_scan(&population);

    assert_eq!(acc, ps);
    assert_eq!(&seq_ps, &partials);
}

#[test]
fn par_scan_exact() {
    let xs: Vec<usize> = vec![3, 1, 4, 1, 5];
    let (total, prefix) = par_scan(&xs);
    assert_eq!(total, 14);
    assert_eq!(prefix, vec![0, 3, 4, 8, 9]);
}

#[test]
fn par_scan_single() {
    let xs: Vec<usize> = vec![7];
    let (total, prefix) = par_scan(&xs);
    assert_eq!(total, 7);
    assert_eq!(prefix, vec![0]);
}
