//! The genome model, the mask, record loading and the gap budget.
use regioners::intervals::{IntervalIndex, Iv};
use regioners::loader::{read_bed, read_genome, read_mask, GenomeError, MaskShift};

fn rec(c: &str, s: u64, e: u64) -> (String, u64, u64) {
    (c.to_string(), s, e)
}

fn iv(start: u64, stop: u64) -> Iv {
    Iv { start, stop, val: 0 }
}

fn two_chrom_genome() -> regioners::loader::GenomeShift {
    read_genome(vec![("c1".to_string(), 100), ("c2".to_string(), 50)], &None).unwrap()
}

#[test]
fn read_genome_lays_chromosomes_end_to_end() {
    let g = two_chrom_genome();
    assert_eq!(g.span, 150);
    assert_eq!(g.chrom.len(), 2);
    assert_eq!(g.chrom.get(0), Iv { start: 0, stop: 100, val: 100 });
    assert_eq!(g.chrom.get(1), Iv { start: 100, stop: 150, val: 50 });
    assert_eq!(g.get_shift(&"c1".to_string()), Some(0));
    assert_eq!(g.get_shift(&"c2".to_string()), Some(100));
    assert_eq!(g.get_shift(&"c3".to_string()), None);
}

#[test]
fn read_genome_subtracts_masked_bases() {
    let mask = Some(read_mask(vec![rec("c1", 40, 60)]));
    let g = read_genome(vec![("c1".to_string(), 100), ("c2".to_string(), 50)], &mask).unwrap();
    assert_eq!(g.span, 130);
    assert_eq!(g.chrom.get(0), Iv { start: 0, stop: 80, val: 80 });
    assert_eq!(g.chrom.get(1), Iv { start: 80, stop: 130, val: 50 });
}

#[test]
fn read_genome_rejects_overmasked_chromosome() {
    let mask = Some(read_mask(vec![rec("c1", 0, 80)]));
    let r = read_genome(vec![("c1".to_string(), 50)], &mask);
    assert_eq!(r.unwrap_err(), GenomeError::MaskExceedsChromosome);
}

#[test]
fn read_mask_merges_overlapping_regions() {
    let m: MaskShift = read_mask(vec![rec("c1", 0, 10), rec("c1", 5, 20), rec("c2", 3, 4)]);
    let c1 = m.get(&"c1".to_string()).unwrap();
    assert_eq!(c1.len(), 1);
    assert_eq!(c1.get(0).start, 0);
    assert_eq!(c1.get(0).stop, 20);
    assert_eq!(c1.cov(), 20);
    assert!(m.get(&"c3".to_string()).is_none());
}

#[test]
fn read_bed_shifts_into_linear_coordinates() {
    let g = two_chrom_genome();
    let a = read_bed(vec![rec("c1", 0, 10), rec("c2", 5, 15)], &g, &None);
    assert_eq!(a.len(), 2);
    assert_eq!(a.get(0), iv(0, 10));
    assert_eq!(a.get(1), iv(105, 115));
}

#[test]
fn read_bed_skips_unknown_chromosomes() {
    let g = two_chrom_genome();
    let a = read_bed(vec![rec("c9", 0, 10), rec("c1", 3, 7)], &g, &None);
    assert_eq!(a.len(), 1);
    assert_eq!(a.get(0), iv(3, 7));
}

#[test]
fn read_bed_drops_masked_records_and_shifts_left() {
    // Mask c1 at [40, 60): a record inside it is dropped; one after it
    // shifts left by the 20 masked bases before its start.
    let mask = Some(read_mask(vec![rec("c1", 40, 60)]));
    let g = read_genome(vec![("c1".to_string(), 100)], &mask).unwrap();
    let a = read_bed(vec![rec("c1", 0, 10), rec("c1", 45, 55), rec("c1", 70, 80)], &g, &mask);
    assert_eq!(a.len(), 2);
    assert_eq!(a.get(0), iv(0, 10));
    assert_eq!(a.get(1), iv(50, 60));
}

#[test]
fn gap_budget_counts_uncovered_bases_genome_wide() {
    let mut g = two_chrom_genome();
    let a = IntervalIndex::new(vec![iv(0, 10), iv(20, 30)]);
    g.make_gap_budget(&a, &false).unwrap();
    assert!(g.has_budget());
    assert_eq!(g.budget_value(0), Some(130));
}

#[test]
fn gap_budget_counts_uncovered_bases_per_chromosome() {
    let mut g = two_chrom_genome();
    let a = IntervalIndex::new(vec![iv(0, 10), iv(110, 120)]);
    g.make_gap_budget(&a, &true).unwrap();
    assert_eq!(g.budget_value(0), Some(90));
    assert_eq!(g.budget_value(1), Some(40));
    assert_eq!(g.budget_value(2), None);
}

#[test]
fn gap_budget_rejects_overfull_scope() {
    let mut g = read_genome(vec![("c1".to_string(), 10)], &None).unwrap();
    let a = IntervalIndex::new(vec![iv(0, 15)]);
    let r = g.make_gap_budget(&a, &false);
    assert_eq!(r.unwrap_err(), GenomeError::BudgetExceedsSpan);
    assert!(!g.has_budget());
}
