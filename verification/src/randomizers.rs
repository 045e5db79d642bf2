//! Interval randomization strategies: free shuffle, circular rotation,
//! non-overlapping shuffle, and the deterministic shift used by the local
//! z-score scan.
use vstd::prelude::*;

verus! {

use crate::intervals::{
    IntervalIndex,
    Iv,
    iv_len,
    ivs_disjoint,
    ivs_separated,
    ivs_sorted,
    ivs_valid,
    hits_pred,
    sum_lens,
};
use crate::loader::{GenomeShift, MAX_COORD, budget_matches};
use crate::gapbreaks::{GapBreaks, new_rand, rand_range, fragment_sum};

/// Why a randomization failed.
#[derive(Clone, Copy, PartialEq, Eq, Structural, Debug)]
pub enum RandError {
    /// An interval is as long as its whole scope, or longer.
    ExceedsSpan,
    /// Under per-chromosome scope, an interval hits no non-empty
    /// chromosome span.
    NotInGenome,
    /// The non-overlapping strategy was asked for without a gap budget.
    MissingGapBudget,
}

/// The first genome span the interval intersects, if any.
pub open spec fn first_span(g: GenomeShift, iv: Iv) -> Option<Iv> {
    let hits = g.chrom@.filter(hits_pred(iv.start as int, iv.stop as int));
    if hits.len() > 0 {
        Some(hits[0])
    } else {
        None
    }
}

/// Scope bounds of an interval: its first genome span under per-chromosome
/// scope, the whole genome otherwise.
pub open spec fn scope_bounds(g: GenomeShift, iv: Iv, per_chrom: bool) -> Option<(u64, u64)> {
    if per_chrom {
        match first_span(g, iv) {
            None => None,
            Some(b) => Some((b.start, b.stop)),
        }
    } else {
        Some((0u64, g.span))
    }
}

/// The interval cannot be shuffled: it has no scope, or fills its scope.
pub open spec fn shuffle_bad(g: GenomeShift, iv: Iv, per_chrom: bool) -> bool {
    match scope_bounds(g, iv, per_chrom) {
        None => true,
        Some((lo, hi)) => hi - lo <= iv_len(iv),
    }
}

/// The first genome span hit by the query range, as `find` returns it.
fn find_first_span(genome: &GenomeShift, lo: u64, hi: u64) -> (r: Option<Iv>)
    ensures
        r == first_span(*genome, Iv { start: lo, stop: hi, val: 0 }),
{
    let hits = genome.chrom.find(lo, hi);
    if hits.len() > 0 {
        Some(hits[0])
    } else {
        None
    }
}

/// Randomly moves each interval to a fresh position inside its scope,
/// keeping its width; overlaps between the moved intervals are allowed.
/// Fails when an interval is at least as long as its scope (or, under
/// per-chromosome scope, hits no span).
#[verifier::rlimit(100)]
pub fn shuffle_intervals(intv: &IntervalIndex, genome: &GenomeShift, per_chrom: bool) -> (r: Result<
    Vec<Iv>,
    RandError,
>)
    requires
        genome.wf(),
        ivs_valid(intv@),
    ensures
        r is Err <==> exists|k: int|
            0 <= k < intv@.len() && shuffle_bad(*genome, #[trigger] intv@[k], per_chrom),
        r is Ok ==> ({
            let out = r.unwrap()@;
            &&& out.len() == intv@.len()
            &&& forall|k: int|
                0 <= k < out.len() ==> iv_len(#[trigger] out[k]) == iv_len(intv@[k])
            &&& forall|k: int|
                0 <= k < out.len() ==> ({
                    let (lo, hi) = scope_bounds(*genome, intv@[k], per_chrom).unwrap();
                    lo <= (#[trigger] out[k]).start && out[k].stop <= hi
                })
            &&& forall|k: int| 0 <= k < out.len() ==> (#[trigger] out[k]).stop <= genome.span
        }),
{
    let ghost s = intv@;
    let n = intv.len();
    let mut rand = new_rand();
    let mut out: Vec<Iv> = Vec::new();
    let mut k: usize = 0;
    while k < n
        invariant
            s == intv@,
            genome.wf(),
            ivs_valid(s),
            n == s.len(),
            0 <= k <= n,
            out@.len() == k,
            forall|j: int| 0 <= j < k ==> iv_len(#[trigger] out@[j]) == iv_len(s[j]),
            forall|j: int|
                0 <= j < k ==> !shuffle_bad(*genome, #[trigger] s[j], per_chrom),
            forall|j: int|
                0 <= j < k ==> ({
                    let (lo, hi) = scope_bounds(*genome, s[j], per_chrom).unwrap();
                    lo <= (#[trigger] out@[j]).start && out@[j].stop <= hi
                }),
            forall|j: int| 0 <= j < k ==> (#[trigger] out@[j]).stop <= genome.span,
        decreases n - k,
    {
        let iv = intv.get(k);
        let width = iv.stop - iv.start;
        let (lower, upper) = if per_chrom {
            match find_first_span(genome, iv.start, iv.stop) {
                Some(b) => (b.start, b.stop),
                None => {
                    proof {
                        assert(shuffle_bad(*genome, s[k as int], per_chrom));
                    }
                    return Err(RandError::NotInGenome);
                },
            }
        } else {
            (0u64, genome.span)
        };
        if upper <= lower || upper - lower <= width {
            proof {
                assert(shuffle_bad(*genome, s[k as int], per_chrom));
            }
            return Err(RandError::ExceedsSpan);
        }
        proof {
            if per_chrom {
                crate::intervals::lemma_filter_mem(
                    genome.chrom@,
                    hits_pred(s[k as int].start as int, s[k as int].stop as int),
                );
                let b = first_span(*genome, s[k as int]).unwrap();
                let w = choose|w: int| 0 <= w < genome.chrom@.len() && genome.chrom@[w] == b;
                genome.lemma_stop_le_span(w);
            }
        }
        let new_position = rand_range(&mut rand, lower, upper - width);
        out.push(Iv { start: new_position, stop: new_position + width, val: 0 });
        k = k + 1;
    }
    Ok(out)
}

/// The pieces an interval becomes under rotation by `shift` within the
/// scope [lower, upper): moved whole, moved whole after wrapping, or split
/// in two at the scope end.
pub open spec fn circle_pieces(iv: Iv, lower: int, upper: int, shift: int) -> Seq<Iv> {
    let ns = iv.start + shift;
    let ne = iv.stop + shift;
    if ns >= upper {
        seq![Iv { start: (ns - upper + lower) as u64, stop: (ne - upper + lower) as u64, val: 0 }]
    } else if ne > upper {
        seq![
            Iv { start: ns as u64, stop: upper as u64, val: 0 },
            Iv { start: lower as u64, stop: (ne - upper + lower) as u64, val: 0 },
        ]
    } else {
        seq![Iv { start: ns as u64, stop: ne as u64, val: 0 }]
    }
}

/// Rotation cannot place an interval: under per-chromosome scope it hits no
/// span, or its span has no width to rotate within.
pub open spec fn circle_bad(g: GenomeShift, iv: Iv, per_chrom: bool) -> bool {
    per_chrom && match first_span(g, iv) {
        None => true,
        Some(b) => b.val == 0,
    }
}

/// An interval's pieces under rotation by the genome-wide offset `delta`:
/// within its chromosome span the effective shift is `delta` modulo the
/// span's width, genome-wide it is `delta` itself.
pub open spec fn circle_one(g: GenomeShift, per_chrom: bool, delta: int, iv: Iv) -> Seq<Iv> {
    if per_chrom {
        let b = first_span(g, iv).unwrap();
        circle_pieces(iv, b.start as int, b.stop as int, delta % (b.val as int))
    } else {
        circle_pieces(iv, 0, g.span as int, delta)
    }
}

/// All intervals' pieces under rotation, in input order.
pub open spec fn circle_seq(s: Seq<Iv>, g: GenomeShift, per_chrom: bool, delta: int) -> Seq<Iv>
    decreases s.len(),
{
    if s.len() == 0 {
        Seq::<Iv>::empty()
    } else {
        circle_seq(s.drop_last(), g, per_chrom, delta) + circle_one(g, per_chrom, delta, s.last())
    }
}

/// Rotates every interval by the given offset: the exact piece sequence is
/// `circle_seq` at that offset.
#[verifier::rlimit(100)]
pub fn circle_with_shift(intv: &IntervalIndex, genome: &GenomeShift, per_chrom: bool, delta: u64) -> (r:
    Result<Vec<Iv>, RandError>)
    requires
        genome.wf(),
        ivs_valid(intv@),
        delta < genome.span,
        forall|k: int| 0 <= k < intv@.len() ==> (#[trigger] intv@[k]).stop <= MAX_COORD,
    ensures
        r is Err <==> exists|k: int|
            0 <= k < intv@.len() && circle_bad(*genome, #[trigger] intv@[k], per_chrom),
        r is Ok ==> r.unwrap()@ == circle_seq(intv@, *genome, per_chrom, delta as int),
{
    let ghost s = intv@;
    let n = intv.len();
    let mut out: Vec<Iv> = Vec::new();
    let mut k: usize = 0;
    proof {
        assert(s.take(0) =~= Seq::<Iv>::empty());
        assert(circle_seq(s.take(0), *genome, per_chrom, delta as int) =~= Seq::<Iv>::empty());
    }
    while k < n
        invariant
            s == intv@,
            genome.wf(),
            ivs_valid(s),
            delta < genome.span,
            forall|j: int| 0 <= j < s.len() ==> (#[trigger] s[j]).stop <= MAX_COORD,
            n == s.len(),
            0 <= k <= n,
            out@ == circle_seq(s.take(k as int), *genome, per_chrom, delta as int),
            forall|j: int| 0 <= j < k ==> !circle_bad(*genome, #[trigger] s[j], per_chrom),
        decreases n - k,
    {
        let iv = intv.get(k);
        let (lower, upper, shift) = if per_chrom {
            match find_first_span(genome, iv.start, iv.stop) {
                Some(b) => {
                    if b.val == 0 {
                        proof {
                            assert(circle_bad(*genome, s[k as int], per_chrom));
                        }
                        return Err(RandError::NotInGenome);
                    }
                    (b.start, b.stop, delta % b.val)
                },
                None => {
                    proof {
                        assert(circle_bad(*genome, s[k as int], per_chrom));
                    }
                    return Err(RandError::NotInGenome);
                },
            }
        } else {
            (0u64, genome.span, delta)
        };
        proof {
            crate::intervals::lemma_filter_mem(
                genome.chrom@,
                hits_pred(s[k as int].start as int, s[k as int].stop as int),
            );
            if per_chrom {
                let b = first_span(*genome, s[k as int]).unwrap();
                let w = choose|w: int|
                    0 <= w < genome.chrom@.len() && genome.chrom@[w] == b;
                genome.lemma_stop_le_span(w);
            }
            assert(s.take(k as int + 1).drop_last() =~= s.take(k as int));
            assert(s.take(k as int + 1).last() == s[k as int]);
        }
        let ghost prev = out@;
        let ghost one = circle_one(*genome, per_chrom, delta as int, s[k as int]);
        let new_start: u64 = iv.start + shift;
        let new_end: u64 = iv.stop + shift;
        if new_start >= upper {
            out.push(Iv { start: new_start - upper + lower, stop: new_end - upper + lower, val: 0 });
            proof {
                assert(out@ =~= prev + one);
            }
        } else if new_end > upper {
            out.push(Iv { start: new_start, stop: upper, val: 0 });
            out.push(Iv { start: lower, stop: new_end - upper + lower, val: 0 });
            proof {
                assert(out@ =~= prev + one);
            }
        } else {
            out.push(Iv { start: new_start, stop: new_end, val: 0 });
            proof {
                assert(out@ =~= prev + one);
            }
        }
        k = k + 1;
    }
    proof {
        assert(s.take(n as int) == s);
    }
    Ok(out)
}

/// Rotates every interval by one random genome-wide offset, preserving
/// order, spacing and widths up to one split per scope crossing.  The
/// result is `circle_seq` at some offset below the span.
pub fn circle_intervals(intv: &IntervalIndex, genome: &GenomeShift, per_chrom: bool) -> (r: Result<
    Vec<Iv>,
    RandError,
>)
    requires
        genome.wf(),
        ivs_valid(intv@),
        genome.span > 0,
        forall|k: int| 0 <= k < intv@.len() ==> (#[trigger] intv@[k]).stop <= MAX_COORD,
    ensures
        r is Err <==> exists|k: int|
            0 <= k < intv@.len() && circle_bad(*genome, #[trigger] intv@[k], per_chrom),
        r is Ok ==> exists|d: int|
            0 <= d < genome.span && r.unwrap()@ == circle_seq(intv@, *genome, per_chrom, d),
{
    let mut rand = new_rand();
    let delta = rand_range(&mut rand, 0, genome.span);
    let r = circle_with_shift(intv, genome, per_chrom, delta);
    proof {
        if r is Ok {
            assert(r.unwrap()@ == circle_seq(intv@, *genome, per_chrom, delta as int));
        }
    }
    r
}

/// Relies on fastrand::shuffle: permutes the slice in place by swaps, so
/// the items are kept exactly, in some order.
#[verifier::external_body]
fn shuffle_items(v: &mut Vec<(bool, u64)>)
    ensures
        final(v)@.to_multiset() == old(v)@.to_multiset(),
        final(v)@.len() == old(v)@.len(),
{
    fastrand::shuffle(v.as_mut_slice());
}

/// Summed sizes of the items that stand for intervals.
pub open spec fn true_sum(s: Seq<(bool, u64)>) -> int
    decreases s.len(),
{
    if s.len() == 0 {
        0
    } else {
        true_sum(s.drop_last()) + if s.last().0 {
            s.last().1 as int
        } else {
            0int
        }
    }
}

/// Number of items that stand for intervals.
pub open spec fn true_cnt(s: Seq<(bool, u64)>) -> int
    decreases s.len(),
{
    if s.len() == 0 {
        0
    } else {
        true_cnt(s.drop_last()) + if s.last().0 {
            1int
        } else {
            0int
        }
    }
}

/// `true_cnt` as a right fold.
proof fn lemma_true_cnt_fold(s: Seq<(bool, u64)>, b: int)
    ensures
        s.fold_right(
            |x: (bool, u64), acc: int|
                acc + if x.0 {
                    1int
                } else {
                    0int
                },
            b,
        ) == true_cnt(s) + b,
    decreases s.len(),
{
    if s.len() > 0 {
        lemma_true_cnt_fold(s.drop_last(), b + if s.last().0 {
            1int
        } else {
            0int
        });
    }
}

/// `fragment_sum` as a right fold.
proof fn lemma_fragment_sum_fold(s: Seq<(bool, u64)>, b: int)
    ensures
        s.fold_right(|x: (bool, u64), acc: int| acc + x.1, b) == fragment_sum(s) + b,
    decreases s.len(),
{
    if s.len() > 0 {
        lemma_fragment_sum_fold(s.drop_last(), b + s.last().1);
    }
}

/// `true_sum` as a right fold.
proof fn lemma_true_sum_fold(s: Seq<(bool, u64)>, b: int)
    ensures
        s.fold_right(
            |x: (bool, u64), acc: int|
                acc + if x.0 {
                    x.1 as int
                } else {
                    0int
                },
            b,
        ) == true_sum(s) + b,
    decreases s.len(),
{
    if s.len() > 0 {
        lemma_true_sum_fold(s.drop_last(), b + if s.last().0 {
            s.last().1 as int
        } else {
            0int
        });
    }
}

/// Reordering the items changes neither their total size, nor the summed
/// size of the interval items, nor how many interval items there are.
pub proof fn lemma_items_multiset(s1: Seq<(bool, u64)>, s2: Seq<(bool, u64)>)
    requires
        s1.to_multiset() == s2.to_multiset(),
    ensures
        fragment_sum(s1) == fragment_sum(s2),
        true_sum(s1) == true_sum(s2),
        true_cnt(s1) == true_cnt(s2),
{
    let f = |x: (bool, u64), acc: int| acc + x.1;
    assert(vstd::seq_lib::commutative_foldr(f)) by {
        assert forall|x: (bool, u64), y: (bool, u64), v: int| #[trigger]
            f(x, f(y, v)) == f(y, f(x, v)) by {
            assert(f(x, f(y, v)) == v + y.1 + x.1);
            assert(f(y, f(x, v)) == v + x.1 + y.1);
        }
    }
    vstd::seq_lib::lemma_fold_right_permutation(s1, s2, f, 0);
    lemma_fragment_sum_fold(s1, 0);
    lemma_fragment_sum_fold(s2, 0);
    let g = |x: (bool, u64), acc: int|
        acc + if x.0 {
            x.1 as int
        } else {
            0int
        };
    assert(vstd::seq_lib::commutative_foldr(g)) by {
        assert forall|x: (bool, u64), y: (bool, u64), v: int| #[trigger]
            g(x, g(y, v)) == g(y, g(x, v)) by {
            assert(g(x, g(y, v)) == v + (if y.0 {
                y.1 as int
            } else {
                0int
            }) + (if x.0 {
                x.1 as int
            } else {
                0int
            }));
            assert(g(y, g(x, v)) == v + (if x.0 {
                x.1 as int
            } else {
                0int
            }) + (if y.0 {
                y.1 as int
            } else {
                0int
            }));
        }
    }
    vstd::seq_lib::lemma_fold_right_permutation(s1, s2, g, 0);
    lemma_true_sum_fold(s1, 0);
    lemma_true_sum_fold(s2, 0);
    let h = |x: (bool, u64), acc: int|
        acc + if x.0 {
            1int
        } else {
            0int
        };
    assert(vstd::seq_lib::commutative_foldr(h)) by {
        assert forall|x: (bool, u64), y: (bool, u64), v: int| #[trigger]
            h(x, h(y, v)) == h(y, h(x, v)) by {
            assert(h(x, h(y, v)) == v + (if y.0 {
                1int
            } else {
                0int
            }) + (if x.0 {
                1int
            } else {
                0int
            }));
            assert(h(y, h(x, v)) == v + (if x.0 {
                1int
            } else {
                0int
            }) + (if y.0 {
                1int
            } else {
                0int
            }));
        }
    }
    vstd::seq_lib::lemma_fold_right_permutation(s1, s2, h, 0);
    lemma_true_cnt_fold(s1, 0);
    lemma_true_cnt_fold(s2, 0);
}

/// Item sums are never negative, and a prefix never exceeds the whole.
proof fn lemma_fragment_sum_take(s: Seq<(bool, u64)>, t: int)
    requires
        0 <= t <= s.len(),
    ensures
        0 <= fragment_sum(s.take(t)) <= fragment_sum(s),
        0 <= true_sum(s.take(t)) <= fragment_sum(s.take(t)),
    decreases s.len() - t,
{
    lemma_fragment_sum_nonneg(s.take(t));
    if t == s.len() {
        assert(s.take(t) =~= s);
    } else {
        lemma_fragment_sum_take(s, t + 1);
        assert(s.take(t + 1).drop_last() =~= s.take(t));
    }
}

/// Both item sums are non-negative, and the interval part is at most the
/// whole.
proof fn lemma_fragment_sum_nonneg(s: Seq<(bool, u64)>)
    ensures
        0 <= fragment_sum(s),
        0 <= true_sum(s) <= fragment_sum(s),
    decreases s.len(),
{
    if s.len() > 0 {
        lemma_fragment_sum_nonneg(s.drop_last());
    }
}

/// Lays one scope of the non-overlapping shuffle: breaks the scope's gap
/// budget into fragments, mixes them with the scope's intervals, and lays
/// everything out end to end from the scope start, emitting the interval
/// items.  Appends to `out`, whose entries must all end at or before the
/// scope start.
#[verifier::rlimit(100)]
fn novl_scope(a: &IntervalIndex, lo: u64, hi: u64, budget: u64, out: &mut Vec<Iv>)
    requires
        lo <= hi,
        hi <= MAX_COORD,
        budget + sum_lens(a@.filter(hits_pred(lo as int, hi as int))) == hi - lo,
        ivs_valid(a@),
        crate::intervals::ivs_chained(old(out)@),
        ivs_valid(old(out)@),
        forall|x: int| 0 <= x < old(out)@.len() ==> (#[trigger] old(out)@[x]).stop <= lo,
    ensures
        final(out)@.len() >= old(out)@.len(),
        final(out)@.take(old(out)@.len() as int) == old(out)@,
        crate::intervals::ivs_chained(final(out)@),
        ivs_valid(final(out)@),
        forall|x: int|
            old(out)@.len() <= x < final(out)@.len() ==> lo <= (#[trigger] final(out)@[x]).start
                && final(out)@[x].stop <= hi,
        forall|x: int| 0 <= x < final(out)@.len() ==> (#[trigger] final(out)@[x]).stop <= hi,
        sum_lens(final(out)@.skip(old(out)@.len() as int)) == sum_lens(
            a@.filter(hits_pred(lo as int, hi as int)),
        ),
        final(out)@.len() == old(out)@.len() + a@.filter(hits_pred(lo as int, hi as int)).len(),
{
    broadcast use vstd::prelude::Seq::lemma_take_succ_push;
    broadcast use vstd::prelude::Seq::lemma_take_len;

    let ghost base = out@.len();
    let ghost fseq = a@.filter(hits_pred(lo as int, hi as int));
    let found = a.find(lo, hi);
    proof {
        crate::intervals::lemma_filter_valid(a@, hits_pred(lo as int, hi as int));
    }
    let breaker = GapBreaks::new(budget);
    let mut items = breaker.collect_fragments();
    let m = found.len();
    let mut j: usize = 0;
    proof {
        assert(found@.take(0) =~= Seq::<Iv>::empty());
        lemma_true_sum_zero_frags(items@);
    }
    while j < m
        invariant
            fseq == found@,
            ivs_valid(fseq),
            m == fseq.len(),
            0 <= j <= m,
            fragment_sum(items@) == budget + sum_lens(found@.take(j as int)),
            true_sum(items@) == sum_lens(found@.take(j as int)),
            true_cnt(items@) == j,
        decreases m - j,
    {
        let iv = found[j];
        let ghost prev = items@;
        items.push((true, iv.stop - iv.start));
        proof {
            assert(items@.drop_last() =~= prev);
            assert(found@.take(j as int + 1).drop_last() =~= found@.take(j as int));
            assert(fseq[j as int].start <= fseq[j as int].stop);
        }
        j = j + 1;
    }
    proof {
        assert(found@.take(m as int) =~= found@);
    }
    let ghost pre_shuffle = items@;
    shuffle_items(&mut items);
    proof {
        lemma_items_multiset(items@, pre_shuffle);
    }
    let n_items = items.len();
    let mut cur: u64 = lo;
    let mut t: usize = 0;
    proof {
        assert(items@.take(0) =~= Seq::<(bool, u64)>::empty());
        assert(out@.skip(base as int) =~= Seq::<Iv>::empty());
        assert(out@.take(base as int) =~= out@);
    }
    while t < n_items
        invariant
            n_items == items@.len(),
            0 <= t <= n_items,
            lo <= hi <= MAX_COORD,
            fragment_sum(items@) == hi - lo,
            true_sum(items@) == sum_lens(fseq),
            true_cnt(items@) == fseq.len(),
            cur == lo + fragment_sum(items@.take(t as int)),
            cur <= hi,
            out@.len() >= base,
            out@.take(base as int) == old(out)@,
            crate::intervals::ivs_chained(out@),
            ivs_valid(out@),
            forall|x: int|
                base <= x < out@.len() ==> lo <= (#[trigger] out@[x]).start && out@[x].stop <= cur,
            forall|x: int| 0 <= x < out@.len() ==> (#[trigger] out@[x]).stop <= cur,
            sum_lens(out@.skip(base as int)) == true_sum(items@.take(t as int)),
            out@.len() == base + true_cnt(items@.take(t as int)),
        decreases n_items - t,
    {
        let it = items[t];
        let ghost prev_out = out@;
        proof {
            lemma_fragment_sum_take(items@, t as int + 1);
            assert(items@.take(t as int + 1).drop_last() =~= items@.take(t as int));
        }
        if it.0 {
            out.push(Iv { start: cur, stop: cur + it.1, val: 0 });
            proof {
                assert(out@.take(base as int) =~= prev_out.take(base as int));
                assert(out@.skip(base as int) =~= prev_out.skip(base as int).push(
                    Iv { start: cur, stop: (cur + it.1) as u64, val: 0 },
                ));
                assert(out@.skip(base as int).drop_last() =~= prev_out.skip(base as int));
            }
        }
        cur = cur + it.1;
        t = t + 1;
    }
    proof {
        assert(items@.take(n_items as int) =~= items@);
        assert(out@.take(base as int) == old(out)@);
    }
}

/// Fresh gap fragments hold no interval items.
proof fn lemma_true_sum_zero_frags(s: Seq<(bool, u64)>)
    requires
        forall|k: int| 0 <= k < s.len() ==> (#[trigger] s[k]).0 == false,
    ensures
        true_sum(s) == 0,
        true_cnt(s) == 0,
    decreases s.len(),
{
    if s.len() > 0 {
        assert forall|k: int| 0 <= k < s.drop_last().len() implies (#[trigger] s.drop_last()[k]).0
            == false by {
            assert(s[k].0 == false);
        }
        lemma_true_sum_zero_frags(s.drop_last());
    }
}

/// Summed widths of the input intervals intersecting each of the first
/// `upto` chromosome scopes.
pub open spec fn per_scope_sum(g: GenomeShift, a: Seq<Iv>, upto: int) -> int
    decreases upto,
{
    if upto <= 0 {
        0
    } else {
        per_scope_sum(g, a, upto - 1) + sum_lens(
            a.filter(
                hits_pred(g.chrom@[upto - 1].start as int, g.chrom@[upto - 1].stop as int),
            ),
        )
    }
}

/// How many input intervals intersect each of the first `upto` chromosome
/// scopes, summed.
pub open spec fn per_scope_cnt(g: GenomeShift, a: Seq<Iv>, upto: int) -> int
    decreases upto,
{
    if upto <= 0 {
        0
    } else {
        per_scope_cnt(g, a, upto - 1) + a.filter(
            hits_pred(g.chrom@[upto - 1].start as int, g.chrom@[upto - 1].stop as int),
        ).len()
    }
}

/// How many intervals the non-overlapping strategy emits: one per input
/// interval intersecting each scope.
pub open spec fn novl_out_len(g: GenomeShift, a: Seq<Iv>, per_chrom: bool) -> int {
    if per_chrom {
        per_scope_cnt(g, a, g.chrom@.len() as int)
    } else {
        a.filter(hits_pred(0, g.span as int)).len() as int
    }
}

/// The interval lies inside one of the genome's chromosome spans.
pub open spec fn in_some_scope(g: GenomeShift, iv: Iv) -> bool {
    exists|k: int|
        0 <= k < g.chrom@.len() && (#[trigger] g.chrom@[k]).start <= iv.start && iv.stop
            <= g.chrom@[k].stop
}

/// Moves every interval to a random position so that no two emitted
/// intervals overlap: each scope's uncovered bases are broken into random
/// fragments, mixed with the scope's intervals and laid out end to end.
/// Requires the gap budget made for this input and scope choice; the input
/// must be merged and lie within the genome.
#[verifier::rlimit(100)]
pub fn novl_intervals(intv: &IntervalIndex, genome: &GenomeShift, per_chrom: bool) -> (r: Result<
    Vec<Iv>,
    RandError,
>)
    requires
        genome.wf(),
        intv.wf(),
        ivs_valid(intv@),
        ivs_separated(intv@),
        forall|k: int| 0 <= k < intv@.len() ==> (#[trigger] intv@[k]).stop <= genome.span,
        budget_matches(*genome, intv@, per_chrom),
    ensures
        r is Ok,
        ({
            let out = r.unwrap()@;
            &&& crate::intervals::ivs_chained(out)
            &&& ivs_valid(out)
            &&& ivs_sorted(out)
            &&& ivs_disjoint(out)
            &&& forall|x: int| 0 <= x < out.len() ==> (#[trigger] out[x]).stop <= genome.span
            &&& out.len() == novl_out_len(*genome, intv@, per_chrom)
            &&& (per_chrom ==> sum_lens(out) == per_scope_sum(
                *genome,
                intv@,
                genome.chrom@.len() as int,
            ))
            &&& (per_chrom ==> forall|x: int|
                0 <= x < out.len() ==> in_some_scope(*genome, #[trigger] out[x]))
            &&& (per_chrom ==> forall|k: int|
                0 <= k < genome.chrom@.len() ==> crate::intervals::cov_in(
                    out,
                    (#[trigger] genome.chrom@[k]).start as int,
                    genome.chrom@[k].stop as int,
                ) == sum_lens(
                    intv@.filter(
                        hits_pred(
                            genome.chrom@[k].start as int,
                            genome.chrom@[k].stop as int,
                        ),
                    ),
                ))
            &&& (!per_chrom ==> sum_lens(out) == crate::intervals::cover(intv@))
        }),
{
    let ghost a = intv@;
    let mut out: Vec<Iv> = Vec::new();
    if !per_chrom {
        let b0 = match genome.budget_value(0) {
            Some(b) => b,
            None => {
                proof {
                    assert(false);
                }
                return Err(RandError::MissingGapBudget);
            },
        };
        proof {
            crate::intervals::lemma_separated_cov(a, 0, 0);
            assert(a.take(0) =~= Seq::<Iv>::empty());
            crate::intervals::lemma_sum_filter_span(a, 0, genome.span as int);
            assert(b0 + sum_lens(a.filter(hits_pred(0, genome.span as int))) == genome.span - 0);
            assert(out@.take(0) =~= out@);
        }
        novl_scope(intv, 0, genome.span, b0, &mut out);
        proof {
            assert(out@.skip(0) =~= out@);
            crate::intervals::lemma_chained_sorted_disjoint(out@);
        }
        Ok(out)
    } else {
        let n = genome.chrom.len();
        let mut k: usize = 0;
        while k < n
            invariant
                a == intv@,
                genome.wf(),
                intv.wf(),
                ivs_valid(a),
                ivs_separated(a),
                budget_matches(*genome, a, true),
                n == genome.chrom@.len(),
                0 <= k <= n,
                crate::intervals::ivs_chained(out@),
                ivs_valid(out@),
                forall|x: int|
                    0 <= x < out@.len() ==> (#[trigger] out@[x]).stop <= (if k == 0 {
                        0int
                    } else {
                        genome.chrom@[k as int - 1].stop as int
                    }),
                sum_lens(out@) == per_scope_sum(*genome, a, k as int),
                out@.len() == per_scope_cnt(*genome, a, k as int),
                forall|x: int| 0 <= x < out@.len() ==> in_some_scope(*genome, #[trigger] out@[x]),
                forall|j: int|
                    0 <= j < n ==> crate::intervals::cov_in(
                        out@,
                        (#[trigger] genome.chrom@[j]).start as int,
                        genome.chrom@[j].stop as int,
                    ) == (if j < k {
                        sum_lens(
                            a.filter(
                                hits_pred(
                                    genome.chrom@[j].start as int,
                                    genome.chrom@[j].stop as int,
                                ),
                            ),
                        )
                    } else {
                        0int
                    }),
            decreases n - k,
        {
            let g = genome.chrom.get(k);
            let bk = match genome.budget_value(k) {
                Some(b) => b,
                None => {
                    proof {
                        assert(false);
                    }
                    return Err(RandError::MissingGapBudget);
                },
            };
            let ghost out_before = out@;
            proof {
                assert(genome.budget_spec().unwrap()[k as int] + sum_lens(
                    a.filter(hits_pred(g.start as int, g.stop as int)),
                ) == iv_len(g));
                assert(g.val == iv_len(g));
                if k > 0 {
                    assert(genome.chrom@[k as int].start == genome.chrom@[k as int - 1].stop as int);
                }
                genome.lemma_stop_le_span(k as int);
            }
            novl_scope(intv, g.start, g.stop, bk, &mut out);
            proof {
                let base = out_before.len() as int;
                let prefix = out@.take(base);
                let appended = out@.skip(base);
                assert(out@ =~= prefix + appended);
                crate::intervals::lemma_sum_lens_append_pub(prefix, appended);
                assert forall|x: int|
                    0 <= x < out@.len() implies in_some_scope(*genome, #[trigger] out@[x]) by {
                    if x < base {
                        assert(out@[x] == out_before[x]);
                        assert(in_some_scope(*genome, out_before[x]));
                    } else {
                        assert(g.start <= out@[x].start && out@[x].stop <= g.stop);
                        assert((genome.chrom@[k as int]).start <= out@[x].start && out@[x].stop
                            <= genome.chrom@[k as int].stop);
                    }
                }
                assert forall|j: int|
                    0 <= j < n implies crate::intervals::cov_in(
                    out@,
                    (#[trigger] genome.chrom@[j]).start as int,
                    genome.chrom@[j].stop as int,
                ) == (if j < k as int + 1 {
                    sum_lens(
                        a.filter(
                            hits_pred(
                                genome.chrom@[j].start as int,
                                genome.chrom@[j].stop as int,
                            ),
                        ),
                    )
                } else {
                    0int
                }) by {
                    let jlo = genome.chrom@[j].start as int;
                    let jhi = genome.chrom@[j].stop as int;
                    crate::intervals::lemma_cov_in_append(prefix, appended, jlo, jhi);
                    assert(crate::intervals::cov_in(prefix, jlo, jhi) == (if j < k as int {
                        sum_lens(a.filter(hits_pred(jlo, jhi)))
                    } else {
                        0int
                    })) by {
                        assert(prefix =~= out_before);
                    }
                    if j == k as int {
                        assert forall|x: int|
                            0 <= x < appended.len() implies jlo <= (#[trigger] appended[x]).start
                            && appended[x].start <= appended[x].stop && appended[x].stop
                            <= jhi by {
                            assert(appended[x] == out@[base + x]);
                        }
                        crate::intervals::lemma_cov_in_contained(appended, jlo, jhi);
                    } else if j < k as int {
                        genome.lemma_scope_order(j, k as int);
                        assert forall|x: int|
                            0 <= x < appended.len() implies ((#[trigger] appended[x]).stop <= jlo
                            || appended[x].start >= jhi) by {
                            assert(appended[x] == out@[base + x]);
                            assert(appended[x].start >= g.start);
                            assert(genome.chrom@[j].stop <= genome.chrom@[k as int].start);
                        }
                        crate::intervals::lemma_cov_in_outside(appended, jlo, jhi);
                    } else {
                        genome.lemma_scope_order(k as int, j);
                        assert forall|x: int|
                            0 <= x < appended.len() implies ((#[trigger] appended[x]).stop <= jlo
                            || appended[x].start >= jhi) by {
                            assert(appended[x] == out@[base + x]);
                            assert(appended[x].stop <= g.stop);
                            assert(genome.chrom@[k as int].stop <= genome.chrom@[j].start);
                        }
                        crate::intervals::lemma_cov_in_outside(appended, jlo, jhi);
                    }
                }
            }
            k = k + 1;
        }
        proof {
            crate::intervals::lemma_chained_sorted_disjoint(out@);
            assert forall|x: int| 0 <= x < out@.len() implies (#[trigger] out@[x]).stop
                <= genome.span by {
                if n > 0 {
                    genome.lemma_stop_le_span(n as int - 1);
                }
            }
        }
        Ok(out)
    }
}

/// Where an interval lands when shifted by `delta`: dropped when it falls
/// entirely below zero, clipped at zero when it straddles it, moved whole
/// otherwise.
pub open spec fn shift_one(iv: Iv, delta: int) -> Option<Iv> {
    let ns = iv.start + delta;
    let ne = iv.stop + delta;
    if ns < 0 {
        if ne <= 0 {
            None
        } else {
            Some(Iv { start: 0, stop: ne as u64, val: 0 })
        }
    } else {
        Some(Iv { start: ns as u64, stop: ne as u64, val: 0 })
    }
}

/// The whole set shifted by `delta`, in order, dropped entries left out.
pub open spec fn shift_seq(s: Seq<Iv>, delta: int) -> Seq<Iv>
    decreases s.len(),
{
    if s.len() == 0 {
        Seq::<Iv>::empty()
    } else {
        match shift_one(s.last(), delta) {
            Some(iv) => shift_seq(s.drop_last(), delta).push(iv),
            None => shift_seq(s.drop_last(), delta),
        }
    }
}

/// Shifting drops intervals, so the result is never longer.
pub proof fn lemma_shift_seq_len(s: Seq<Iv>, delta: int)
    ensures
        shift_seq(s, delta).len() <= s.len(),
    decreases s.len(),
{
    if s.len() > 0 {
        lemma_shift_seq_len(s.drop_last(), delta);
    }
}

/// Shifts every interval by a fixed signed offset.  Intervals pushed fully
/// below zero are dropped; one straddling zero is clipped at zero.  Used by
/// the local z-score scan.
pub fn shift_intervals(intv: &IntervalIndex, shift: i64) -> (r: IntervalIndex)
    requires
        ivs_valid(intv@),
        forall|k: int| 0 <= k < intv@.len() ==> (#[trigger] intv@[k]).stop <= MAX_COORD,
        -(MAX_COORD as i64) <= shift < MAX_COORD as i64,
    ensures
        r.wf(),
        r@.to_multiset() == shift_seq(intv@, shift as int).to_multiset(),
        r@.len() == shift_seq(intv@, shift as int).len(),
{
    broadcast use vstd::prelude::Seq::lemma_take_succ_push;
    broadcast use vstd::prelude::Seq::lemma_take_len;

    let ghost s = intv@;
    let n = intv.len();
    let mut out: Vec<Iv> = Vec::new();
    let mut k: usize = 0;
    proof {
        assert(s.take(0) =~= Seq::<Iv>::empty());
    }
    while k < n
        invariant
            s == intv@,
            ivs_valid(s),
            forall|j: int| 0 <= j < s.len() ==> (#[trigger] s[j]).stop <= MAX_COORD,
            -(MAX_COORD as i64) <= shift < MAX_COORD as i64,
            n == s.len(),
            0 <= k <= n,
            out@ == shift_seq(s.take(k as int), shift as int),
        decreases n - k,
    {
        let iv = intv.get(k);
        let new_position: i64 = iv.start as i64 + shift;
        if new_position < 0 {
            if iv.stop as i64 + shift > 0 {
                let stop: u64 = (iv.stop as i64 + shift) as u64;
                out.push(Iv { start: 0, stop, val: 0 });
            }
        } else {
            let width = iv.stop - iv.start;
            out.push(
                Iv {
                    start: new_position as u64,
                    stop: new_position as u64 + width,
                    val: 0,
                },
            );
        }
        proof {
            assert(s.take(k as int + 1).drop_last() =~= s.take(k as int));
            assert(s.take(k as int + 1).last() == s[k as int]);
        }
        k = k + 1;
    }
    proof {
        assert(s.take(n as int) == s);
    }
    IntervalIndex::new(out)
}

/// The interval lies inside its scope, and under per-chromosome scope the
/// span has width to rotate within.
pub open spec fn in_scope_ok(g: GenomeShift, iv: Iv, per_chrom: bool) -> bool {
    &&& iv.start <= iv.stop
    &&& !circle_bad(g, iv, per_chrom)
    &&& scope_bounds(g, iv, per_chrom) is Some
    &&& ({
        let (lo, hi) = scope_bounds(g, iv, per_chrom).unwrap();
        lo <= iv.start && iv.stop <= hi
    })
}

/// Rotation of one interval keeps its width, stays inside the scope and
/// yields one piece, or two when it crosses the scope end.
pub proof fn lemma_circle_pieces_props(iv: Iv, lower: int, upper: int, shift: int)
    requires
        lower <= iv.start,
        iv.start <= iv.stop,
        iv.stop <= upper,
        0 <= shift < upper - lower,
        0 <= lower,
        upper <= MAX_COORD,
    ensures
        1 <= circle_pieces(iv, lower, upper, shift).len() <= 2,
        sum_lens(circle_pieces(iv, lower, upper, shift)) == iv_len(iv),
        forall|j: int|
            0 <= j < circle_pieces(iv, lower, upper, shift).len() ==> lower <= (
            #[trigger] circle_pieces(iv, lower, upper, shift)[j]).start
                && circle_pieces(iv, lower, upper, shift)[j].start <= circle_pieces(
                iv,
                lower,
                upper,
                shift,
            )[j].stop && circle_pieces(iv, lower, upper, shift)[j].stop <= upper,
{
    let ps = circle_pieces(iv, lower, upper, shift);
    assert(sum_lens(Seq::<Iv>::empty()) == 0);
    if ps.len() == 1 {
        assert(ps.drop_last() =~= Seq::<Iv>::empty());
        assert(ps.last() == ps[0]);
        assert(sum_lens(ps) == sum_lens(ps.drop_last()) + iv_len(ps.last()));
        assert(sum_lens(ps) == iv_len(ps[0]));
    } else {
        let one = seq![ps[0]];
        assert(ps.drop_last() =~= one);
        assert(one.drop_last() =~= Seq::<Iv>::empty());
        assert(one.last() == ps[0]);
        assert(sum_lens(one) == sum_lens(one.drop_last()) + iv_len(one.last()));
        assert(ps.last() == ps[1]);
        assert(sum_lens(ps) == sum_lens(ps.drop_last()) + iv_len(ps.last()));
        assert(sum_lens(ps) == iv_len(ps[0]) + iv_len(ps[1]));
    }
}

/// Within the scope, a point is covered by the rotated pieces exactly when
/// shifting it back (directly, or once around the scope) lands inside the
/// original interval: the inverse shift recovers the original, up to the
/// split.
pub proof fn lemma_circle_pieces_rotation(iv: Iv, lower: int, upper: int, shift: int, q: int)
    requires
        lower <= iv.start,
        iv.start <= iv.stop,
        iv.stop <= upper,
        0 <= shift < upper - lower,
        0 <= lower,
        upper <= MAX_COORD,
        lower <= q < upper,
    ensures
        crate::intervals::covers(circle_pieces(iv, lower, upper, shift), q) <==> (
        crate::intervals::in_iv(iv, q - shift) || crate::intervals::in_iv(
            iv,
            q - shift + (upper - lower),
        )),
{
    let ps = circle_pieces(iv, lower, upper, shift);
    if crate::intervals::covers(ps, q) {
        let j = choose|j: int|
            0 <= j < ps.len() && (#[trigger] ps[j]).start <= q < ps[j].stop;
        assert(crate::intervals::in_iv(iv, q - shift) || crate::intervals::in_iv(
            iv,
            q - shift + (upper - lower),
        ));
    }
    if crate::intervals::in_iv(iv, q - shift) {
        let p = q - shift;
        if iv.start + shift >= upper {
            assert(ps[0].start <= q < ps[0].stop);
        } else if iv.stop + shift > upper {
            if q >= iv.start + shift {
                assert(ps[0].start <= q < ps[0].stop);
            } else {
                assert(ps[1].start <= q < ps[1].stop);
            }
        } else {
            assert(ps[0].start <= q < ps[0].stop);
        }
    }
    if crate::intervals::in_iv(iv, q - shift + (upper - lower)) {
        if iv.start + shift >= upper {
            assert(ps[0].start <= q < ps[0].stop);
        } else if iv.stop + shift > upper {
            assert(ps[1].start <= q < ps[1].stop);
        } else {
            assert(ps[0].start <= q < ps[0].stop);
        }
    }
}

/// Rotation of a whole set keeps the total width, and the piece count grows
/// only by splits: at most one per interval.
pub proof fn lemma_circle_seq_props(s: Seq<Iv>, g: GenomeShift, per_chrom: bool, delta: int)
    requires
        g.wf(),
        0 <= delta,
        !per_chrom ==> delta < g.span,
        forall|k: int| 0 <= k < s.len() ==> in_scope_ok(g, #[trigger] s[k], per_chrom),
    ensures
        sum_lens(circle_seq(s, g, per_chrom, delta)) == sum_lens(s),
        s.len() <= circle_seq(s, g, per_chrom, delta).len() <= 2 * s.len(),
        forall|j: int|
            0 <= j < circle_seq(s, g, per_chrom, delta).len() ==> 0 <= (#[trigger] circle_seq(
                s,
                g,
                per_chrom,
                delta,
            )[j]).start && circle_seq(s, g, per_chrom, delta)[j].start <= circle_seq(
                s,
                g,
                per_chrom,
                delta,
            )[j].stop && circle_seq(s, g, per_chrom, delta)[j].stop <= g.span,
    decreases s.len(),
{
    if s.len() > 0 {
        let t = s.drop_last();
        assert forall|k: int| 0 <= k < t.len() implies in_scope_ok(
            g,
            #[trigger] t[k],
            per_chrom,
        ) by {
            assert(in_scope_ok(g, s[k], per_chrom));
        }
        lemma_circle_seq_props(t, g, per_chrom, delta);
        let last = s.last();
        assert(in_scope_ok(g, s[s.len() - 1], per_chrom));
        let (lo, hi) = scope_bounds(g, last, per_chrom).unwrap();
        let eff = if per_chrom {
            let b = first_span(g, last).unwrap();
            delta % (b.val as int)
        } else {
            delta
        };
        if per_chrom {
            let b = first_span(g, last).unwrap();
            crate::intervals::lemma_filter_mem(
                g.chrom@,
                hits_pred(last.start as int, last.stop as int),
            );
            assert(g.chrom@.contains(b));
            let w = choose|w: int| 0 <= w < g.chrom@.len() && g.chrom@[w] == b;
            g.lemma_stop_le_span(w);
            assert(b.val == iv_len(b));
            assert(b.val > 0);
            assert(0 <= eff < hi - lo) by {
                assert(delta % (b.val as int) < b.val as int);
                assert(delta % (b.val as int) >= 0);
            }
        }
        lemma_circle_pieces_props(last, lo as int, hi as int, eff);
        crate::intervals::lemma_sum_lens_append_pub(
            circle_seq(t, g, per_chrom, delta),
            circle_one(g, per_chrom, delta, last),
        );
    }
}

/// What holds of every set the free shuffle can hand back, whatever was
/// drawn: one output per input of the same summed width, inside the span.
pub open spec fn shuffle_outcome(g: GenomeShift, a: Seq<Iv>, rs: Seq<Iv>) -> bool {
    &&& rs.len() == a.len()
    &&& sum_lens(rs) == sum_lens(a)
    &&& forall|x: int| 0 <= x < rs.len() ==> (#[trigger] rs[x]).stop <= g.span
}

/// What holds of every set the rotation can hand back: the pieces of
/// `circle_seq` at some offset below the span, in some order.
pub open spec fn circle_outcome(g: GenomeShift, a: Seq<Iv>, per_chrom: bool, rs: Seq<Iv>) -> bool {
    exists|d: int|
        0 <= d < g.span && rs.to_multiset() == #[trigger] circle_seq(
            a,
            g,
            per_chrom,
            d,
        ).to_multiset()
}

/// What holds of every set the non-overlapping shuffle can hand back:
/// pairwise disjoint valid intervals inside the genome, one per input
/// interval intersecting each scope, with the scopes' width sums kept.
pub open spec fn novl_outcome(g: GenomeShift, a: Seq<Iv>, per_chrom: bool, rs: Seq<Iv>) -> bool {
    &&& ivs_disjoint(rs)
    &&& ivs_valid(rs)
    &&& forall|x: int| 0 <= x < rs.len() ==> (#[trigger] rs[x]).stop <= g.span
    &&& rs.len() == novl_out_len(g, a, per_chrom)
    &&& (per_chrom ==> sum_lens(rs) == per_scope_sum(g, a, g.chrom@.len() as int))
    &&& (per_chrom ==> forall|x: int| 0 <= x < rs.len() ==> in_some_scope(g, #[trigger] rs[x]))
    &&& (per_chrom ==> forall|k: int|
        0 <= k < g.chrom@.len() ==> crate::intervals::cov_in(
            rs,
            (#[trigger] g.chrom@[k]).start as int,
            g.chrom@[k].stop as int,
        ) == sum_lens(
            a.filter(hits_pred(g.chrom@[k].start as int, g.chrom@[k].stop as int)),
        ))
    &&& (!per_chrom ==> sum_lens(rs) == crate::intervals::cover(a))
}

/// The interval randomization strategies.
#[derive(Clone, Copy, PartialEq, Eq, Structural, Debug)]
pub enum Randomizer {
    /// Shuffle intervals, allowing overlaps.
    Shuffle,
    /// Rotate intervals, preserving order and spacing.
    Circle,
    /// Shuffle intervals without allowing overlaps.
    Novl,
}

impl Randomizer {
    /// Runs the selected strategy and indexes its output.  The width sum is
    /// preserved by shuffling, the output is `circle_seq` at some offset
    /// under rotation, and it is disjoint with the per-scope width sums
    /// under the non-overlapping strategy.
    pub fn ize(&self, intv: &IntervalIndex, genome: &GenomeShift, per_chrom: bool) -> (r: Result<
        IntervalIndex,
        RandError,
    >)
        requires
            genome.wf(),
            intv.wf(),
            ivs_valid(intv@),
            forall|k: int| 0 <= k < intv@.len() ==> (#[trigger] intv@[k]).stop <= MAX_COORD,
            *self is Circle ==> genome.span > 0,
            *self is Novl ==> ivs_separated(intv@) && (forall|k: int|
                0 <= k < intv@.len() ==> (#[trigger] intv@[k]).stop <= genome.span) && (
            genome.budget_spec() is Some ==> budget_matches(*genome, intv@, per_chrom)),
        ensures
            r is Ok ==> r.unwrap().wf(),
            *self is Shuffle ==> ({
                &&& (r is Err <==> exists|k: int|
                    0 <= k < intv@.len() && shuffle_bad(*genome, #[trigger] intv@[k], per_chrom))
                &&& (r is Ok ==> shuffle_outcome(*genome, intv@, r.unwrap()@))
            }),
            *self is Circle ==> ({
                &&& (r is Err <==> exists|k: int|
                    0 <= k < intv@.len() && circle_bad(*genome, #[trigger] intv@[k], per_chrom))
                &&& (r is Ok ==> circle_outcome(*genome, intv@, per_chrom, r.unwrap()@))
            }),
            *self is Novl ==> ({
                &&& (r is Err <==> genome.budget_spec() is None)
                &&& (r is Ok ==> novl_outcome(*genome, intv@, per_chrom, r.unwrap()@))
            }),
    {
        match self {
            Randomizer::Shuffle => {
                match shuffle_intervals(intv, genome, per_chrom) {
                    Ok(v) => {
                        let ghost vseq = v@;
                        let idx = IntervalIndex::new(v);
                        proof {
                            crate::intervals::lemma_sum_lens_multiset(idx@, vseq);
                            crate::intervals::lemma_sum_lens_pointwise(vseq, intv@);
                            crate::intervals::lemma_stop_bound_multiset(
                                vseq,
                                idx@,
                                genome.span as int,
                            );
                            assert(shuffle_outcome(*genome, intv@, idx@));
                        }
                        Ok(idx)
                    },
                    Err(e) => Err(e),
                }
            },
            Randomizer::Circle => {
                match circle_intervals(intv, genome, per_chrom) {
                    Ok(v) => {
                        let ghost vseq = v@;
                        let idx = IntervalIndex::new(v);
                        proof {
                            let d = choose|d: int|
                                0 <= d < genome.span && vseq == circle_seq(
                                    intv@,
                                    *genome,
                                    per_chrom,
                                    d,
                                );
                            assert(idx@.to_multiset() == circle_seq(
                                intv@,
                                *genome,
                                per_chrom,
                                d,
                            ).to_multiset());
                            assert(circle_outcome(*genome, intv@, per_chrom, idx@));
                        }
                        Ok(idx)
                    },
                    Err(e) => Err(e),
                }
            },
            Randomizer::Novl => {
                if !genome.has_budget() {
                    return Err(RandError::MissingGapBudget);
                }
                match novl_intervals(intv, genome, per_chrom) {
                    Ok(v) => {
                        proof {
                            crate::intervals::lemma_chained_sorted_disjoint(v@);
                            assert(novl_outcome(*genome, intv@, per_chrom, v@));
                        }
                        Ok(IntervalIndex::from_sorted(v))
                    },
                    Err(e) => Err(e),
                }
            },
        }
    }
}

} // verus!
