use rembed::math::{isqrt, isqrt_ceil, kth_root, ratio_trunc};

#[test]
fn floor_square_roots() {
    assert_eq!(isqrt(0), 0);
    assert_eq!(isqrt(1), 1);
    assert_eq!(isqrt(15), 3);
    assert_eq!(isqrt(16), 4);
    assert_eq!(isqrt(1_000_000), 1000);
}

#[test]
fn ceiling_square_roots() {
    assert_eq!(isqrt_ceil(0), 0);
    assert_eq!(isqrt_ceil(1), 1);
    assert_eq!(isqrt_ceil(15), 4);
    assert_eq!(isqrt_ceil(16), 4);
    assert_eq!(isqrt_ceil(17), 5);
}

#[test]
fn floor_kth_roots() {
    assert_eq!(kth_root(4096, 2), 64);
    assert_eq!(kth_root(4095, 2), 63);
    assert_eq!(kth_root(27, 3), 3);
    assert_eq!(kth_root(26, 3), 2);
    assert_eq!(kth_root(1, 7), 1);
}

#[test]
fn truncating_ratio_is_odd() {
    assert_eq!(ratio_trunc(7, 1, 2), 3);
    assert_eq!(ratio_trunc(-7, 1, 2), -3);
    assert_eq!(ratio_trunc(10, 3, 4), 7);
    assert_eq!(ratio_trunc(-10, 3, 4), -7);
}
