//! The overlap counters, the statistics core and the option checks.
use regioners::cli::ArgParser;
use regioners::intervals::{IntervalIndex, Iv};
use regioners::overlappers::Overlapper;
use regioners::randomizers::Randomizer;
use regioners::stats::{local_shift_counts, PermTest};

fn iv(start: u64, stop: u64) -> Iv {
    Iv { start, stop, val: 0 }
}

#[test]
fn all_counts_every_intersecting_pair() {
    let a = IntervalIndex::new(vec![iv(0, 10), iv(20, 30)]);
    let b = IntervalIndex::new(vec![iv(5, 25), iv(8, 9), iv(50, 60)]);
    assert_eq!(Overlapper::All.ovl(&a, &b), 3);
}

#[test]
fn any_counts_a_intervals_with_hits() {
    let a = IntervalIndex::new(vec![iv(0, 10), iv(20, 30)]);
    let b = IntervalIndex::new(vec![iv(5, 25), iv(8, 9), iv(50, 60)]);
    assert_eq!(Overlapper::Any.ovl(&a, &b), 2);
    let lonely = IntervalIndex::new(vec![iv(100, 110)]);
    assert_eq!(Overlapper::Any.ovl(&lonely, &b), 0);
}

#[test]
fn any_never_exceeds_all() {
    let a = IntervalIndex::new(vec![iv(0, 10), iv(5, 15), iv(40, 45)]);
    let b = IntervalIndex::new(vec![iv(0, 50), iv(3, 12)]);
    assert!(Overlapper::Any.ovl(&a, &b) <= Overlapper::All.ovl(&a, &b));
}

#[test]
fn all_is_symmetric_on_merged_inputs() {
    let mut a = IntervalIndex::new(vec![iv(0, 10), iv(20, 30), iv(44, 45)]);
    let mut b = IntervalIndex::new(vec![iv(5, 25), iv(40, 60)]);
    a.merge_overlaps();
    b.merge_overlaps();
    assert_eq!(Overlapper::All.ovl(&a, &b), Overlapper::All.ovl(&b, &a));
}

#[test]
fn touching_intervals_do_not_intersect() {
    let a = IntervalIndex::new(vec![iv(0, 10)]);
    let b = IntervalIndex::new(vec![iv(10, 20)]);
    assert_eq!(Overlapper::All.ovl(&a, &b), 0);
}

#[test]
fn perm_test_flat_distribution_gives_p_one() {
    // Every permutation matches the observed count: alt is 'g' and the
    // p-value fraction is (3 + 1) / (3 + 1) = 1.
    let t = PermTest::new(3, &vec![3, 3, 3]);
    assert_eq!(t.alt, 'g');
    assert_eq!(t.p_num, 4);
    assert_eq!(t.p_den, 4);
    assert_eq!(t.total, 9);
    assert_eq!(t.num_perms, 3);
}

#[test]
fn perm_test_low_observed_leans_less() {
    let t = PermTest::new(0, &vec![1, 2, 3]);
    assert_eq!(t.alt, 'l');
    // No permutation count is at most 0: p = (0 + 1) / (3 + 1).
    assert_eq!(t.p_num, 1);
    assert_eq!(t.p_den, 4);
}

#[test]
fn perm_test_high_observed_leans_greater() {
    let t = PermTest::new(9, &vec![1, 2, 3, 10]);
    assert_eq!(t.alt, 'g');
    // One permutation count is at least 9: p = (1 + 1) / (4 + 1).
    assert_eq!(t.p_num, 2);
    assert_eq!(t.p_den, 5);
}

#[test]
fn perm_test_empty_distribution() {
    let t = PermTest::new(0, &Vec::new());
    assert_eq!(t.alt, 'g');
    assert_eq!(t.p_num, 1);
    assert_eq!(t.p_den, 1);
    assert_eq!(t.total, 0);
}

#[test]
fn local_shift_counts_scan_the_window() {
    let a = IntervalIndex::new(vec![iv(100, 110)]);
    let b = IntervalIndex::new(vec![iv(100, 110)]);
    // Offsets -20, -10, 0, 10: only the shift by 0 overlaps fully, the
    // shifts by -10 and 10 touch without intersecting.
    let counts = local_shift_counts(&a, &b, Overlapper::All, 20, 10);
    assert_eq!(counts, vec![0, 0, 1, 0]);
}

#[test]
fn local_shift_counts_empty_window() {
    let a = IntervalIndex::new(vec![iv(0, 10)]);
    let b = IntervalIndex::new(vec![iv(0, 10)]);
    let counts = local_shift_counts(&a, &b, Overlapper::All, 0, 10);
    assert_eq!(counts.len(), 0);
}

#[test]
fn validate_needs_a_thread() {
    let args = ArgParser {
        num_times: 100,
        threads: 0,
        random: Randomizer::Shuffle,
        count: Overlapper::All,
        per_chrom: false,
        no_merge: false,
        no_swap: false,
        window: 1000,
        step: 50,
    };
    assert!(!args.validate());
}

#[test]
fn validate_rejects_novl_without_merging() {
    let args = ArgParser {
        num_times: 100,
        threads: 1,
        random: Randomizer::Novl,
        count: Overlapper::All,
        per_chrom: false,
        no_merge: true,
        no_swap: false,
        window: 1000,
        step: 50,
    };
    assert!(!args.validate());
}

#[test]
fn validate_accepts_the_defaults() {
    let args = ArgParser {
        num_times: 100,
        threads: 1,
        random: Randomizer::Shuffle,
        count: Overlapper::All,
        per_chrom: false,
        no_merge: false,
        no_swap: false,
        window: 1000,
        step: 50,
    };
    assert!(args.validate());
}
