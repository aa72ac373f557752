//! Who does what.

use burn_sct::layer::clamped_rank;
use burn_sct::plan::{
    chunk_ranges, fits_gpu, group_count, is_row_major, share, shares_rows, shares_steps,
    thread_count,
};
use burn_sct::SctConfig;

#[test]
fn config_keeps_its_numbers() {
    let c = SctConfig::new(512, 2048, 64);
    assert_eq!((c.in_features, c.out_features, c.rank), (512, 2048, 64));
    let d = c.clone();
    assert_eq!(format!("{d:?}"), "SctConfig { in_features: 512, out_features: 2048, rank: 64 }");
}

#[test]
fn rank_is_the_smallest() {
    assert_eq!(clamped_rank(8, 32, 64), 8);
    assert_eq!(clamped_rank(1000, 32, 64), 32);
    assert_eq!(clamped_rank(1000, 64, 32), 32);
    assert_eq!(clamped_rank(5, 5, 5), 5);
}

#[test]
fn threads_are_limited() {
    assert_eq!(thread_count(None), 1);
    assert_eq!(thread_count(Some(1)), 1);
    assert_eq!(thread_count(Some(12)), 12);
    assert_eq!(thread_count(Some(64)), 12);
}

#[test]
fn small_work_is_not_shared_out() {
    assert!(shares_steps(2, 64, 1024));
    assert!(!shares_steps(1, 64, 1024));
    assert!(!shares_steps(2, 63, 1024));
    assert!(!shares_steps(2, 64, 1023));
    assert!(shares_rows(2, 1024));
    assert!(!shares_rows(1, 1024));
    assert!(!shares_rows(2, 1023));
}

#[test]
fn ranges_of_known_counts() {
    assert_eq!(chunk_ranges(10, 4), vec![(0, 3), (3, 6), (6, 9), (9, 10)]);
    assert_eq!(chunk_ranges(8, 4), vec![(0, 2), (2, 4), (4, 6), (6, 8)]);
    // Five threads are offered and four suffice.
    assert_eq!(chunk_ranges(8, 5), vec![(0, 2), (2, 4), (4, 6), (6, 8)]);
    assert_eq!(chunk_ranges(3, 12), vec![(0, 1), (1, 2), (2, 3)]);
}

#[test]
fn ranges_follow_one_another() {
    assert_eq!(share(10, 4, true), vec![(0, 3), (3, 6), (6, 9), (9, 10)]);
    assert_eq!(share(10, 4, false), vec![(0, 10)]);
    assert_eq!(share(10, 0, true), vec![(0, 10)]);
    assert_eq!(share(0, 4, true), vec![(0, 0)]);
}

#[test]
fn every_line_is_shared_out_once() {
    for count in 1..60 {
        for threads in 1..15 {
            let ranges = chunk_ranges(count, threads);
            assert!(ranges.len() <= threads);
            for x in 0..count {
                assert_eq!(ranges.iter().filter(|(lo, hi)| *lo <= x && x < *hi).count(), 1);
            }
        }
    }
}

#[test]
fn gpu_limits() {
    assert!(fits_gpu(256, 16) && fits_gpu(256, 1024) && fits_gpu(100000, 128));
    assert!(!fits_gpu(255, 16) && !fits_gpu(256, 15) && !fits_gpu(256, 1025));
    assert!(!fits_gpu(0, 16) && !fits_gpu(256, 0));
    assert_eq!(group_count(256), 1);
    assert_eq!(group_count(257), 2);
    assert_eq!(group_count(11008), 43);
    assert_eq!(group_count(0), 0);
}

#[test]
fn row_major_buffers() {
    assert!(is_row_major(4, 3, 3, 1));
    assert!(!is_row_major(4, 3, 1, 4));
    assert!(!is_row_major(4, 3, 6, 1));
    assert!(!is_row_major(4, 3, 3, 2));
    // A side of length 1 is stepped over once at most.
    assert!(is_row_major(1, 3, 99, 1));
    assert!(is_row_major(4, 1, 1, 99));
}
