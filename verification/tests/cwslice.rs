use parrd_sampling::cwslice::UnsafeSlice;

#[test]
fn scatter_write_and_read() {
    let mut buf = UnsafeSlice::new(vec![0u64; 4]);
    buf.write(2, 9);
    buf.write(0, 5);
    assert_eq!(*buf.read(0), 5);
    assert_eq!(*buf.read(1), 0);
    assert_eq!(*buf.read(2), 9);
    assert_eq!(buf.len(), 4);
    assert_eq!(buf.into_vec(), vec![5, 0, 9, 0]);
}

#[test]
fn swap_exchanges() {
    let mut buf = UnsafeSlice::new(vec![1, 2, 3, 4]);
    buf.swap(0, 3);
    buf.swap(1, 1);
    assert_eq!(buf.into_vec(), vec![4, 2, 3, 1]);
}

#[test]
fn write_max_keeps_larger() {
    let mut buf = UnsafeSlice::new(vec![5usize, 5]);
    buf.write_max(0, 9);
    buf.write_max(1, 2);
    assert_eq!(buf.into_vec(), vec![9, 5]);
}

#[test]
fn claim_min_keeps_smaller() {
    let mut buf = UnsafeSlice::new(vec![5usize, 5]);
    buf.claim_min(0, 9);
    buf.claim_min(1, 2);
    assert_eq!(buf.into_vec(), vec![5, 2]);
}
