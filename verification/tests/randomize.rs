//! The randomization strategies and the permutation driver.
use regioners::driver::{maybe_swap, run_permutations, DriverError};
use regioners::gapbreaks::GapBreaks;
use regioners::intervals::{IntervalIndex, Iv};
use regioners::loader::read_genome;
use regioners::overlappers::Overlapper;
use regioners::randomizers::{
    circle_with_shift, novl_intervals, shift_intervals, shuffle_intervals, RandError, Randomizer,
};

fn iv(start: u64, stop: u64) -> Iv {
    Iv { start, stop, val: 0 }
}

fn one_chrom(len: u64) -> regioners::loader::GenomeShift {
    read_genome(vec![("c1".to_string(), len)], &None).unwrap()
}

#[test]
fn gap_breaks_fragments_sum_to_budget() {
    let total: u64 = GapBreaks::new(100).collect_fragments().iter().map(|f| f.1).sum();
    assert_eq!(total, 100);
    for f in GapBreaks::new(50000).collect_fragments() {
        assert!(!f.0);
        // Between 1 and the cap: 1/10000 of the remaining budget, so at
        // most 4 here, and the cap only shrinks as the budget drains.
        assert!(f.1 >= 1 && f.1 <= 4);
    }
    assert!(GapBreaks::new(0).next().is_none());
}

#[test]
fn shuffle_keeps_widths_inside_the_span() {
    let g = one_chrom(1000);
    let a = IntervalIndex::new(vec![iv(0, 10), iv(50, 75), iv(900, 999)]);
    for _ in 0..20 {
        let out = shuffle_intervals(&a, &g, false).unwrap();
        assert_eq!(out.len(), 3);
        assert_eq!(out[0].stop - out[0].start, 10);
        assert_eq!(out[1].stop - out[1].start, 25);
        assert_eq!(out[2].stop - out[2].start, 99);
        for o in out {
            assert!(o.stop <= 1000);
        }
    }
}

#[test]
fn shuffle_stays_inside_the_chromosome() {
    let g = read_genome(vec![("c1".to_string(), 100), ("c2".to_string(), 100)], &None).unwrap();
    let a = IntervalIndex::new(vec![iv(0, 10)]);
    for _ in 0..20 {
        let out = shuffle_intervals(&a, &g, true).unwrap();
        assert_eq!(out.len(), 1);
        assert!(out[0].stop <= 100);
    }
}

#[test]
fn shuffle_rejects_interval_filling_its_scope() {
    let g = one_chrom(5);
    let a = IntervalIndex::new(vec![iv(0, 5)]);
    assert_eq!(shuffle_intervals(&a, &g, false).unwrap_err(), RandError::ExceedsSpan);
}

#[test]
fn shuffle_rejects_interval_outside_the_genome() {
    let g = one_chrom(10);
    let a = IntervalIndex::new(vec![iv(20, 30)]);
    assert_eq!(shuffle_intervals(&a, &g, true).unwrap_err(), RandError::NotInGenome);
}

#[test]
fn circle_wraps_whole_interval() {
    let g = one_chrom(100);
    let a = IntervalIndex::new(vec![iv(90, 95)]);
    let out = circle_with_shift(&a, &g, false, 10).unwrap();
    assert_eq!(out, vec![iv(0, 5)]);
}

#[test]
fn circle_splits_at_the_span_end() {
    let g = one_chrom(100);
    let a = IntervalIndex::new(vec![iv(95, 100)]);
    let out = circle_with_shift(&a, &g, false, 3).unwrap();
    assert_eq!(out, vec![iv(98, 100), iv(0, 3)]);
}

#[test]
fn circle_rotates_in_place_without_crossing() {
    let g = one_chrom(100);
    let a = IntervalIndex::new(vec![iv(10, 20), iv(30, 40)]);
    let out = circle_with_shift(&a, &g, false, 25).unwrap();
    assert_eq!(out, vec![iv(35, 45), iv(55, 65)]);
}

#[test]
fn circle_uses_offset_modulo_chromosome_width() {
    let g = read_genome(vec![("c1".to_string(), 100), ("c2".to_string(), 50)], &None).unwrap();
    // c2 spans [100, 150); an offset of 60 acts as 60 mod 50 = 10 there.
    let a = IntervalIndex::new(vec![iv(100, 110)]);
    let out = circle_with_shift(&a, &g, true, 60).unwrap();
    assert_eq!(out, vec![iv(110, 120)]);
}

#[test]
fn circle_preserves_total_length() {
    let g = one_chrom(100);
    let a = IntervalIndex::new(vec![iv(0, 10), iv(50, 80), iv(95, 99)]);
    for d in [0u64, 7, 55, 96, 99] {
        let out = circle_with_shift(&a, &g, false, d).unwrap();
        let total: u64 = out.iter().map(|o| o.stop - o.start).sum();
        assert_eq!(total, 44);
        for o in out {
            assert!(o.stop <= 100);
        }
    }
}

#[test]
fn novl_emits_disjoint_intervals_of_the_same_total_length() {
    let mut g = one_chrom(100);
    let a = IntervalIndex::new(vec![iv(0, 10), iv(20, 30), iv(40, 50)]);
    g.make_gap_budget(&a, &false).unwrap();
    for _ in 0..10 {
        let out = novl_intervals(&a, &g, false).unwrap();
        assert_eq!(out.len(), 3);
        let total: u64 = out.iter().map(|o| o.stop - o.start).sum();
        assert_eq!(total, 30);
        for w in out.windows(2) {
            assert!(w[0].stop <= w[1].start);
        }
        for o in out {
            assert!(o.stop <= 100);
        }
    }
}

#[test]
fn novl_respects_chromosome_scopes() {
    let mut g = read_genome(vec![("c1".to_string(), 50), ("c2".to_string(), 50)], &None).unwrap();
    let a = IntervalIndex::new(vec![iv(0, 10), iv(60, 70)]);
    g.make_gap_budget(&a, &true).unwrap();
    for _ in 0..10 {
        let out = novl_intervals(&a, &g, true).unwrap();
        assert_eq!(out.len(), 2);
        assert!(out[0].stop <= 50);
        assert!(out[1].start >= 50 && out[1].stop <= 100);
        // Each scope keeps its own emitted width.
        assert_eq!(out[0].stop - out[0].start, 10);
        assert_eq!(out[1].stop - out[1].start, 10);
    }
}

#[test]
fn ize_requires_a_gap_budget_for_novl() {
    let g = one_chrom(100);
    let a = IntervalIndex::new(vec![iv(0, 10)]);
    let r = Randomizer::Novl.ize(&a, &g, false);
    assert_eq!(r.unwrap_err(), RandError::MissingGapBudget);
}

#[test]
fn shift_moves_clips_and_drops() {
    let a = IntervalIndex::new(vec![iv(10, 20), iv(40, 50)]);
    let right = shift_intervals(&a, 5);
    assert_eq!(right.len(), 2);
    assert_eq!(right.get(0), iv(15, 25));
    assert_eq!(right.get(1), iv(45, 55));
    let clipped = shift_intervals(&a, -15);
    assert_eq!(clipped.len(), 2);
    assert_eq!(clipped.get(0), iv(0, 5));
    assert_eq!(clipped.get(1), iv(25, 35));
    let dropped = shift_intervals(&a, -25);
    assert_eq!(dropped.len(), 1);
    assert_eq!(dropped.get(0), iv(15, 25));
}

#[test]
fn maybe_swap_takes_the_smaller_first_side() {
    let a = IntervalIndex::new(vec![iv(0, 1), iv(2, 3)]);
    let b = IntervalIndex::new(vec![iv(0, 1)]);
    let (x, y, swapped) = maybe_swap(a, b, false);
    assert!(swapped);
    assert_eq!(x.len(), 1);
    assert_eq!(y.len(), 2);
    let a2 = IntervalIndex::new(vec![iv(0, 1), iv(2, 3)]);
    let b2 = IntervalIndex::new(vec![iv(0, 1)]);
    let (x2, y2, swapped2) = maybe_swap(a2, b2, true);
    assert!(!swapped2);
    assert_eq!(x2.len(), 2);
    assert_eq!(y2.len(), 1);
}

#[test]
fn run_permutations_produces_one_count_per_permutation() {
    let g = one_chrom(1000);
    let a = IntervalIndex::new(vec![iv(0, 10)]);
    let b = IntervalIndex::new(vec![iv(0, 10)]);
    let counts = run_permutations(&a, &b, &g, Randomizer::Shuffle, Overlapper::All, false, 25)
        .unwrap();
    assert_eq!(counts.len(), 25);
    for c in counts {
        assert!(c <= 1);
    }
}

#[test]
fn run_permutations_cannot_cross_chromosomes() {
    // A lives on c1, B on c2: no shuffled A can ever reach B.
    let g = read_genome(vec![("c1".to_string(), 100), ("c2".to_string(), 100)], &None).unwrap();
    let a = IntervalIndex::new(vec![iv(0, 10)]);
    let b = IntervalIndex::new(vec![iv(100, 110)]);
    let counts = run_permutations(&a, &b, &g, Randomizer::Shuffle, Overlapper::All, true, 50)
        .unwrap();
    assert_eq!(counts.len(), 50);
    for c in counts {
        assert_eq!(c, 0);
    }
}

#[test]
fn run_permutations_propagates_randomizer_failure() {
    let g = one_chrom(5);
    let a = IntervalIndex::new(vec![iv(0, 5)]);
    let b = IntervalIndex::new(vec![iv(0, 5)]);
    let r = run_permutations(&a, &b, &g, Randomizer::Shuffle, Overlapper::All, false, 10);
    assert_eq!(r.unwrap_err(), DriverError::Rand(RandError::ExceedsSpan));
}

#[test]
fn ize_shuffle_indexes_the_randomized_set() {
    let g = one_chrom(1000);
    let a = IntervalIndex::new(vec![iv(0, 10), iv(50, 75)]);
    let idx = Randomizer::Shuffle.ize(&a, &g, false).unwrap();
    assert_eq!(idx.len(), 2);
    let total: u64 = (0..idx.len()).map(|i| idx.get(i).stop - idx.get(i).start).sum();
    assert_eq!(total, 35);
}

#[test]
fn ize_circle_preserves_total_length_up_to_splits() {
    let g = one_chrom(100);
    let a = IntervalIndex::new(vec![iv(0, 10), iv(40, 70)]);
    for _ in 0..20 {
        let idx = Randomizer::Circle.ize(&a, &g, false).unwrap();
        assert!(idx.len() >= 2 && idx.len() <= 4);
        let total: u64 = (0..idx.len()).map(|i| idx.get(i).stop - idx.get(i).start).sum();
        assert_eq!(total, 40);
    }
}

#[test]
fn ize_novl_emits_a_disjoint_set() {
    let mut g = one_chrom(100);
    let a = IntervalIndex::new(vec![iv(0, 10), iv(20, 30)]);
    g.make_gap_budget(&a, &false).unwrap();
    let idx = Randomizer::Novl.ize(&a, &g, false).unwrap();
    assert_eq!(idx.len(), 2);
    assert!(idx.get(0).stop <= idx.get(1).start);
}

#[test]
fn empty_input_permutes_to_empty_counts() {
    let g = one_chrom(100);
    let a = IntervalIndex::new(Vec::new());
    let b = IntervalIndex::new(vec![iv(0, 100)]);
    let counts = run_permutations(&a, &b, &g, Randomizer::Shuffle, Overlapper::All, false, 5)
        .unwrap();
    assert_eq!(counts, vec![0, 0, 0, 0, 0]);
}

#[test]
fn novl_against_a_full_cover_gives_a_flat_distribution() {
    // Three length-10 intervals randomized without overlap inside [0, 100)
    // each intersect a B that covers everything: every permutation counts 3.
    let mut g = one_chrom(100);
    let a = IntervalIndex::new(vec![iv(0, 10), iv(20, 30), iv(40, 50)]);
    let b = IntervalIndex::new(vec![iv(0, 100)]);
    let observed = Overlapper::All.ovl(&a, &b);
    assert_eq!(observed, 3);
    g.make_gap_budget(&a, &false).unwrap();
    let counts = run_permutations(&a, &b, &g, Randomizer::Novl, Overlapper::All, false, 30)
        .unwrap();
    assert_eq!(counts, vec![3; 30]);
    let t = regioners::stats::PermTest::new(observed, &counts);
    assert_eq!(t.alt, 'g');
    assert_eq!(t.p_num, 31);
    assert_eq!(t.p_den, 31);
}

#[test]
fn circle_rotating_back_recovers_the_original() {
    let g = one_chrom(100);
    let a = IntervalIndex::new(vec![iv(10, 20), iv(30, 45)]);
    let once = circle_with_shift(&a, &g, false, 25).unwrap();
    let back = circle_with_shift(&IntervalIndex::new(once), &g, false, 75).unwrap();
    assert_eq!(IntervalIndex::new(back).find(0, 100), vec![iv(10, 20), iv(30, 45)]);
}
