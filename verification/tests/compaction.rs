use parrd_sampling::compaction::{compact, make_filled};
use parrd_sampling::prefix_scan::par_scan;

#[test]
fn compact_exact() {
    let src: Vec<i32> = vec![10, 20, 30, 40];
    let flags: Vec<usize> = vec![1, 0, 1, 0];
    let (total, locs) = par_scan(&flags);
    assert_eq!(total, 2);
    let out = compact(&src, &flags, &locs, total);
    assert_eq!(out, vec![10, 30]);
}

#[test]
fn compact_none_kept() {
    let src: Vec<i32> = vec![10, 20];
    let flags: Vec<usize> = vec![0, 0];
    let (total, locs) = par_scan(&flags);
    assert_eq!(total, 0);
    let out = compact(&src, &flags, &locs, total);
    assert_eq!(out, Vec::<i32>::new());
}

#[test]
fn make_filled_values() {
    let v = make_filled(7u8, 5);
    assert_eq!(v, vec![7, 7, 7, 7, 7]);
}
