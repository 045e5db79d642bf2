//! The interval index and the record scanner.
use regioners::bedparse::{BedError, BedErrorKind, BedParser};
use regioners::intervals::{IntervalIndex, Iv};

fn iv(start: u64, stop: u64) -> Iv {
    Iv { start, stop, val: 0 }
}

#[test]
fn new_sorts_by_start_then_stop() {
    let idx = IntervalIndex::new(vec![iv(10, 20), iv(0, 5), iv(10, 12)]);
    assert_eq!(idx.len(), 3);
    assert_eq!(idx.get(0), iv(0, 5));
    assert_eq!(idx.get(1), iv(10, 12));
    assert_eq!(idx.get(2), iv(10, 20));
}

#[test]
fn find_returns_intersecting_intervals() {
    let idx = IntervalIndex::new(vec![iv(0, 5), iv(10, 20), iv(15, 30), iv(40, 50)]);
    let hits = idx.find(12, 41);
    assert_eq!(hits, vec![iv(10, 20), iv(15, 30), iv(40, 50)]);
    assert_eq!(idx.find(5, 10).len(), 0);
    // A zero-width query returns intervals holding the point strictly inside.
    assert_eq!(idx.find(12, 12), vec![iv(10, 20)]);
    assert_eq!(idx.find(10, 10).len(), 0);
}

#[test]
fn cov_counts_overlap_once() {
    let idx = IntervalIndex::new(vec![iv(0, 10), iv(5, 15), iv(20, 25)]);
    assert_eq!(idx.cov(), 20);
    let empty = IntervalIndex::new(Vec::new());
    assert_eq!(empty.cov(), 0);
}

#[test]
fn cov_range_clips_to_query() {
    let mut idx = IntervalIndex::new(vec![iv(0, 10), iv(20, 30)]);
    idx.merge_overlaps();
    assert_eq!(idx.cov_range(5, 25), 10);
    assert_eq!(idx.cov_range(0, 50), 20);
    assert_eq!(idx.cov_range(10, 20), 0);
}

#[test]
fn merge_overlaps_unions_overlapping_and_adjacent() {
    let mut idx = IntervalIndex::new(vec![iv(10, 20), iv(0, 5), iv(15, 30), iv(30, 35), iv(50, 60)]);
    idx.merge_overlaps();
    assert_eq!(idx.len(), 3);
    assert_eq!(idx.get(0), iv(0, 5));
    assert_eq!(idx.get(1).start, 10);
    assert_eq!(idx.get(1).stop, 35);
    assert_eq!(idx.get(2).start, 50);
    assert_eq!(idx.get(2).stop, 60);
    // Cover now equals the summed widths.
    assert_eq!(idx.cov(), 5 + 25 + 10);
}

#[test]
fn merge_overlaps_is_idempotent() {
    let mut idx = IntervalIndex::new(vec![iv(0, 10), iv(5, 12), iv(20, 30)]);
    idx.merge_overlaps();
    let first: Vec<Iv> = (0..idx.len()).map(|i| idx.get(i)).collect();
    idx.merge_overlaps();
    let second: Vec<Iv> = (0..idx.len()).map(|i| idx.get(i)).collect();
    assert_eq!(first, second);
}

fn rec(c: &str, s: u64, e: u64) -> (String, u64, u64) {
    (c.to_string(), s, e)
}

#[test]
fn bed_parser_accepts_sorted_records() {
    let mut p = BedParser::new();
    let records = vec![rec("c1", 0, 10), rec("c1", 5, 8), rec("c2", 0, 3), rec("c2", 2, 9)];
    let back = p.parse(records.clone()).unwrap();
    assert_eq!(back, records);
}

#[test]
fn bed_parser_rejects_empty_range() {
    let mut p = BedParser::new();
    let err = p.parse(vec![rec("c1", 0, 10), rec("c1", 12, 12)]).unwrap_err();
    assert_eq!(err, BedError { line: 1, kind: BedErrorKind::BadRange });
}

#[test]
fn bed_parser_rejects_backwards_start() {
    let mut p = BedParser::new();
    let err = p.parse(vec![rec("c1", 20, 30), rec("c1", 10, 15)]).unwrap_err();
    assert_eq!(err, BedError { line: 1, kind: BedErrorKind::Unordered });
}

#[test]
fn bed_parser_resets_on_chromosome_change() {
    let mut p = BedParser::new();
    // c2 restarts at 0 although c1 reached 30.
    assert!(p.parse(vec![rec("c1", 20, 30), rec("c2", 0, 5)]).is_ok());
}
