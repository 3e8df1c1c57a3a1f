use zip_scheduler::geometry::{distance_m, isqrt};
use zip_scheduler::planner::str_lt;

#[test]
fn distance_is_floored_euclidean() {
    assert_eq!(distance_m((0, 0), (3, 4)), 5);
    assert_eq!(distance_m((0, 0), (1000, 2000)), 2236);
    assert_eq!(distance_m((1000, 2000), (0, 0)), 2236);
    assert_eq!(distance_m((-3, -4), (0, 0)), 5);
    assert_eq!(distance_m((7, 7), (7, 7)), 0);
    assert_eq!(distance_m((0, 0), (0, -85000)), 85000);
    // the whole i32 span does not overflow
    assert_eq!(distance_m((i32::MIN, 0), (i32::MAX, 0)), u32::MAX as u64);
}

#[test]
fn isqrt_rounds_down() {
    assert_eq!(isqrt(0), 0);
    assert_eq!(isqrt(1), 1);
    assert_eq!(isqrt(24), 4);
    assert_eq!(isqrt(25), 5);
    assert_eq!(isqrt(26), 5);
    assert_eq!(isqrt(5_000_000), 2236);
}

#[test]
fn str_lt_is_lexicographic() {
    assert!(str_lt("alpha", "beta"));
    assert!(!str_lt("beta", "alpha"));
    assert!(str_lt("a", "ab"));
    assert!(!str_lt("ab", "a"));
    assert!(!str_lt("same", "same"));
    assert!(str_lt("", "a"));
}
