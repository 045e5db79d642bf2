//! Sorted interval container: intersection queries, coverage, overlap merging.
use vstd::prelude::*;

verus! {

/// Half-open interval [start, stop) in linear genome coordinates.
/// `val` carries auxiliary data (the genome model stores post-mask
/// chromosome lengths in it); it plays no part in ordering or overlap.
#[derive(Clone, Copy, PartialEq, Eq, Structural, Debug)]
pub struct Iv {
    pub start: u64,
    pub stop: u64,
    pub val: u64,
}

/// Width of an interval.
pub open spec fn iv_len(iv: Iv) -> int {
    iv.stop - iv.start
}

/// The interval intersects the half-open query range [lo, hi).
pub open spec fn iv_hits(iv: Iv, lo: int, hi: int) -> bool {
    iv.start < hi && lo < iv.stop
}

/// Predicate form of `iv_hits` for use with `Seq::filter`.
pub open spec fn hits_pred(lo: int, hi: int) -> spec_fn(Iv) -> bool {
    |iv: Iv| iv_hits(iv, lo, hi)
}

/// Ordering used by the index: by start, ties broken by stop.
pub open spec fn iv_le(a: Iv, b: Iv) -> bool {
    a.start < b.start || (a.start == b.start && a.stop <= b.stop)
}

/// Sorted ascending under `iv_le`.
pub open spec fn ivs_sorted(s: Seq<Iv>) -> bool {
    forall|i: int, j: int| 0 <= i < j < s.len() ==> iv_le(s[i], s[j])
}

/// Consecutive entries neither overlap nor touch.
pub open spec fn ivs_separated(s: Seq<Iv>) -> bool {
    forall|i: int| 0 <= i < s.len() - 1 ==> s[i].stop < s[i + 1].start
}

/// Some entry of `s` covers the point `p`.
pub open spec fn covers(s: Seq<Iv>, p: int) -> bool {
    exists|i: int| 0 <= i < s.len() && (#[trigger] s[i]).start <= p < s[i].stop
}

/// Sum of the raw widths of the entries (overlap counted twice).
pub open spec fn sum_lens(s: Seq<Iv>) -> int
    decreases s.len(),
{
    if s.len() == 0 {
        0
    } else {
        sum_lens(s.drop_last()) + iv_len(s.last())
    }
}

/// Covered bases of a start-sorted sequence from entry `i` on, given that
/// every base below the watermark `hi` is already counted.  A left-to-right
/// sweep: each entry contributes the part of it that lies above `hi`.
pub open spec fn cov_from(s: Seq<Iv>, i: int, hi: int) -> int
    decreases s.len() - i,
{
    if i < 0 || i >= s.len() {
        0
    } else {
        let lo = if s[i].start > hi {
            s[i].start as int
        } else {
            hi
        };
        let add = if s[i].stop > lo {
            s[i].stop - lo
        } else {
            0
        };
        let hi2 = if s[i].stop > hi {
            s[i].stop as int
        } else {
            hi
        };
        add + cov_from(s, i + 1, hi2)
    }
}

/// Total covered bases (the size of the union) of a start-sorted sequence.
pub open spec fn cover(s: Seq<Iv>) -> int {
    cov_from(s, 0, 0)
}

/// Part of an interval that lies inside [lo, hi).
pub open spec fn clip_len(iv: Iv, lo: int, hi: int) -> int {
    let a = if iv.start > lo {
        iv.start as int
    } else {
        lo
    };
    let b = if iv.stop < hi {
        iv.stop as int
    } else {
        hi
    };
    if b > a {
        b - a
    } else {
        0
    }
}

/// Bases of [lo, hi) covered by a separated sequence: summed clipped widths.
pub open spec fn cov_in(s: Seq<Iv>, lo: int, hi: int) -> int
    decreases s.len(),
{
    if s.len() == 0 {
        0
    } else {
        cov_in(s.drop_last(), lo, hi) + clip_len(s.last(), lo, hi)
    }
}

/// Restricted coverage is non-negative and fits in the query range, with the
/// part above the last entry's stop left free.
pub proof fn lemma_cov_in_bound(s: Seq<Iv>, lo: int, hi: int)
    requires
        ivs_sorted(s),
        ivs_separated(s),
        ivs_valid(s),
        lo <= hi,
    ensures
        0 <= cov_in(s, lo, hi),
        s.len() == 0 ==> cov_in(s, lo, hi) == 0,
        s.len() > 0 ==> cov_in(s, lo, hi) <= ({
            let m = if s.last().stop < hi {
                s.last().stop as int
            } else {
                hi
            };
            if m > lo {
                m - lo
            } else {
                0
            }
        }),
        cov_in(s, lo, hi) <= hi - lo,
    decreases s.len(),
{
    if s.len() > 0 {
        let t = s.drop_last();
        lemma_cov_in_bound(t, lo, hi);
        if t.len() > 0 {
            assert(t.last() == s[s.len() - 2]);
            assert(s[s.len() - 2].stop < s.last().start);
        }
    }
}

/// Coverage of a range splits at any midpoint.
pub proof fn lemma_cov_in_split(s: Seq<Iv>, lo: int, mid: int, hi: int)
    requires
        lo <= mid <= hi,
    ensures
        cov_in(s, lo, hi) == cov_in(s, lo, mid) + cov_in(s, mid, hi),
    decreases s.len(),
{
    if s.len() > 0 {
        lemma_cov_in_split(s.drop_last(), lo, mid, hi);
    }
}

/// Restricted coverage adds up over concatenation.
pub proof fn lemma_cov_in_append(x: Seq<Iv>, y: Seq<Iv>, lo: int, hi: int)
    ensures
        cov_in(x + y, lo, hi) == cov_in(x, lo, hi) + cov_in(y, lo, hi),
    decreases y.len(),
{
    if y.len() == 0 {
        assert(x + y =~= x);
    } else {
        lemma_cov_in_append(x, y.drop_last(), lo, hi);
        assert((x + y).drop_last() =~= x + y.drop_last());
        assert((x + y).last() == y.last());
    }
}

/// Entries lying inside the range are clipped to their full widths.
pub proof fn lemma_cov_in_contained(s: Seq<Iv>, lo: int, hi: int)
    requires
        forall|k: int|
            0 <= k < s.len() ==> lo <= (#[trigger] s[k]).start && s[k].start <= s[k].stop
                && s[k].stop <= hi,
    ensures
        cov_in(s, lo, hi) == sum_lens(s),
    decreases s.len(),
{
    if s.len() > 0 {
        assert forall|k: int|
            0 <= k < s.drop_last().len() implies lo <= (#[trigger] s.drop_last()[k]).start
            && s.drop_last()[k].start <= s.drop_last()[k].stop && s.drop_last()[k].stop <= hi by {
            assert(lo <= s[k].start && s[k].start <= s[k].stop && s[k].stop <= hi);
        }
        lemma_cov_in_contained(s.drop_last(), lo, hi);
        assert(lo <= s[s.len() - 1].start && s[s.len() - 1].stop <= hi);
    }
}

/// Entries entirely below or entirely above the range cover none of it.
pub proof fn lemma_cov_in_outside(s: Seq<Iv>, lo: int, hi: int)
    requires
        forall|k: int|
            0 <= k < s.len() ==> ((#[trigger] s[k]).stop <= lo || s[k].start >= hi),
    ensures
        cov_in(s, lo, hi) == 0,
    decreases s.len(),
{
    if s.len() > 0 {
        assert forall|k: int|
            0 <= k < s.drop_last().len() implies ((#[trigger] s.drop_last()[k]).stop <= lo
            || s.drop_last()[k].start >= hi) by {
            assert(s[k].stop <= lo || s[k].start >= hi);
        }
        lemma_cov_in_outside(s.drop_last(), lo, hi);
        assert(s[s.len() - 1].stop <= lo || s[s.len() - 1].start >= hi);
    }
}

/// Sequences with the same entries cover the same points.
pub proof fn lemma_covers_multiset(s1: Seq<Iv>, s2: Seq<Iv>, p: int)
    requires
        s1.to_multiset() == s2.to_multiset(),
    ensures
        covers(s1, p) == covers(s2, p),
{
    broadcast use vstd::seq_lib::group_to_multiset_ensures;

    if covers(s1, p) {
        let k = choose|k: int| 0 <= k < s1.len() && (#[trigger] s1[k]).start <= p < s1[k].stop;
        assert(s1.contains(s1[k]));
        assert(s1.to_multiset().count(s1[k]) > 0);
        assert(s2.to_multiset().count(s1[k]) > 0);
        assert(s2.contains(s1[k]));
        let j = choose|j: int| 0 <= j < s2.len() && s2[j] == s1[k];
        assert((s2[j]).start <= p < s2[j].stop);
    }
    if covers(s2, p) {
        let k = choose|k: int| 0 <= k < s2.len() && (#[trigger] s2[k]).start <= p < s2[k].stop;
        assert(s2.contains(s2[k]));
        assert(s2.to_multiset().count(s2[k]) > 0);
        assert(s1.to_multiset().count(s2[k]) > 0);
        assert(s1.contains(s2[k]));
        let j = choose|j: int| 0 <= j < s1.len() && s1[j] == s2[k];
        assert((s1[j]).start <= p < s1[j].stop);
    }
}

/// Every filtered entry is an entry of the original sequence.
pub proof fn lemma_filter_mem(s: Seq<Iv>, pred: spec_fn(Iv) -> bool)
    ensures
        forall|j: int|
            0 <= j < s.filter(pred).len() ==> s.contains(#[trigger] s.filter(pred)[j]),
    decreases s.len(),
{
    reveal(Seq::filter);
    if s.len() > 0 {
        let t = s.drop_last();
        lemma_filter_mem(t, pred);
        assert forall|j: int|
            0 <= j < s.filter(pred).len() implies s.contains(#[trigger] s.filter(pred)[j]) by {
            let f = s.filter(pred);
            let fd = t.filter(pred);
            if pred(s.last()) && j == f.len() - 1 {
                assert(f[j] == s.last());
                assert(s[s.len() - 1] == s.last());
            } else {
                assert(f[j] == fd[j]);
                assert(t.contains(fd[j]));
                let w = choose|w: int| 0 <= w < t.len() && t[w] == fd[j];
                assert(s[w] == fd[j]);
            }
        }
    }
}

/// Sequences with the same entries are valid together.
pub proof fn lemma_valid_multiset(s1: Seq<Iv>, s2: Seq<Iv>)
    requires
        s1.to_multiset() == s2.to_multiset(),
        ivs_valid(s1),
    ensures
        ivs_valid(s2),
{
    broadcast use vstd::seq_lib::group_to_multiset_ensures;

    assert forall|k: int| 0 <= k < s2.len() implies (#[trigger] s2[k]).start <= s2[k].stop by {
        assert(s2.contains(s2[k]));
        assert(s2.to_multiset().count(s2[k]) > 0);
        assert(s1.to_multiset().count(s2[k]) > 0);
        assert(s1.contains(s2[k]));
        let j = choose|j: int| 0 <= j < s1.len() && s1[j] == s2[k];
        assert(s1[j].start <= s1[j].stop);
    }
}

/// For valid entries, a prefix sums to no more than the whole.
pub proof fn lemma_sum_lens_take_le(s: Seq<Iv>, t: int)
    requires
        ivs_valid(s),
        0 <= t <= s.len(),
    ensures
        0 <= sum_lens(s.take(t)) <= sum_lens(s),
    decreases s.len() - t,
{
    assert forall|k: int| 0 <= k < s.take(t).len() implies (#[trigger] s.take(t)[k]).start <= s.take(
        t,
    )[k].stop by {
        assert(s[k].start <= s[k].stop);
    }
    lemma_sum_lens_nonneg(s.take(t));
    if t == s.len() {
        assert(s.take(t) =~= s);
    } else {
        lemma_sum_lens_take_le(s, t + 1);
        assert(s.take(t + 1).drop_last() =~= s.take(t));
        assert(s[t].start <= s[t].stop);
    }
}

/// Valid entries sum to a non-negative total.
pub proof fn lemma_sum_lens_nonneg(s: Seq<Iv>)
    requires
        ivs_valid(s),
    ensures
        0 <= sum_lens(s),
    decreases s.len(),
{
    if s.len() > 0 {
        assert forall|k: int|
            0 <= k < s.drop_last().len() implies (#[trigger] s.drop_last()[k]).start
            <= s.drop_last()[k].stop by {
            assert(s[k].start <= s[k].stop);
        }
        lemma_sum_lens_nonneg(s.drop_last());
        assert(s.last().start <= s.last().stop);
    }
}

/// Filtering keeps every entry valid.
pub proof fn lemma_filter_valid(s: Seq<Iv>, pred: spec_fn(Iv) -> bool)
    requires
        ivs_valid(s),
    ensures
        ivs_valid(s.filter(pred)),
    decreases s.len(),
{
    reveal(Seq::filter);
    if s.len() > 0 {
        assert forall|k: int|
            0 <= k < s.drop_last().len() implies (#[trigger] s.drop_last()[k]).start
            <= s.drop_last()[k].stop by {
            assert(s[k].start <= s[k].stop);
        }
        lemma_filter_valid(s.drop_last(), pred);
        assert(s.last().start <= s.last().stop);
    }
}

/// Summed widths distribute over concatenation.
pub proof fn lemma_sum_lens_append_pub(x: Seq<Iv>, y: Seq<Iv>)
    ensures
        sum_lens(x + y) == sum_lens(x) + sum_lens(y),
    decreases y.len(),
{
    if y.len() == 0 {
        assert(x + y =~= x);
    } else {
        lemma_sum_lens_append_pub(x, y.drop_last());
        assert((x + y).drop_last() =~= x + y.drop_last());
        assert((x + y).last() == y.last());
    }
}

/// Sequences with the same entries share any bound on their stops.
pub proof fn lemma_stop_bound_multiset(s1: Seq<Iv>, s2: Seq<Iv>, bound: int)
    requires
        s1.to_multiset() == s2.to_multiset(),
        forall|k: int| 0 <= k < s1.len() ==> (#[trigger] s1[k]).stop <= bound,
    ensures
        forall|k: int| 0 <= k < s2.len() ==> (#[trigger] s2[k]).stop <= bound,
{
    broadcast use vstd::seq_lib::group_to_multiset_ensures;

    assert forall|k: int| 0 <= k < s2.len() implies (#[trigger] s2[k]).stop <= bound by {
        assert(s2.contains(s2[k]));
        assert(s2.to_multiset().count(s2[k]) > 0);
        assert(s1.to_multiset().count(s2[k]) > 0);
        assert(s1.contains(s2[k]));
        let j = choose|j: int| 0 <= j < s1.len() && s1[j] == s2[k];
        assert(s1[j].stop <= bound);
    }
}

/// Sequences whose entries have pairwise equal widths have equal sums.
pub proof fn lemma_sum_lens_pointwise(s1: Seq<Iv>, s2: Seq<Iv>)
    requires
        s1.len() == s2.len(),
        forall|k: int| 0 <= k < s1.len() ==> iv_len(#[trigger] s1[k]) == iv_len(s2[k]),
    ensures
        sum_lens(s1) == sum_lens(s2),
    decreases s1.len(),
{
    if s1.len() > 0 {
        assert forall|k: int|
            0 <= k < s1.drop_last().len() implies iv_len(#[trigger] s1.drop_last()[k]) == iv_len(
            s2.drop_last()[k],
        ) by {
            assert(iv_len(s1[k]) == iv_len(s2[k]));
        }
        lemma_sum_lens_pointwise(s1.drop_last(), s2.drop_last());
        assert(iv_len(s1[s1.len() - 1]) == iv_len(s2[s1.len() - 1]));
    }
}

/// `sum_lens` as a right fold, for permutation reasoning.
proof fn lemma_sum_lens_fold(s: Seq<Iv>, b: int)
    ensures
        s.fold_right(|iv: Iv, acc: int| acc + iv_len(iv), b) == sum_lens(s) + b,
    decreases s.len(),
{
    if s.len() > 0 {
        lemma_sum_lens_fold(s.drop_last(), b + iv_len(s.last()));
    }
}

/// Sequences with the same entries have the same summed widths.
pub proof fn lemma_sum_lens_multiset(s1: Seq<Iv>, s2: Seq<Iv>)
    requires
        s1.to_multiset() == s2.to_multiset(),
    ensures
        sum_lens(s1) == sum_lens(s2),
{
    let f = |iv: Iv, acc: int| acc + iv_len(iv);
    assert(vstd::seq_lib::commutative_foldr(f)) by {
        assert forall|x: Iv, y: Iv, v: int| #[trigger] f(x, f(y, v)) == f(y, f(x, v)) by {
            assert(f(y, v) == v + iv_len(y));
            assert(f(x, f(y, v)) == v + iv_len(y) + iv_len(x));
            assert(f(x, v) == v + iv_len(x));
            assert(f(y, f(x, v)) == v + iv_len(x) + iv_len(y));
        }
    }
    vstd::seq_lib::lemma_fold_right_permutation(s1, s2, f, 0);
    lemma_sum_lens_fold(s1, 0);
    lemma_sum_lens_fold(s2, 0);
}

/// Two intervals share at least one point.
pub open spec fn ivs_overlap(a: Iv, b: Iv) -> bool {
    a.start < b.stop && b.start < a.stop
}

/// No two entries share a point.
pub open spec fn ivs_disjoint(s: Seq<Iv>) -> bool {
    forall|i: int, j: int| 0 <= i < j < s.len() ==> !ivs_overlap(s[i], s[j])
}

/// Every entry is a well-formed range.
pub open spec fn ivs_valid(s: Seq<Iv>) -> bool {
    forall|i: int| 0 <= i < s.len() ==> (#[trigger] s[i]).start <= s[i].stop
}

/// Consecutive entries do not overlap, though they may touch.
pub open spec fn ivs_chained(s: Seq<Iv>) -> bool {
    forall|i: int| 0 <= i < s.len() - 1 ==> (#[trigger] s[i]).stop <= s[i + 1].start
}

/// Entries laid out end to end are sorted and pairwise disjoint.
pub proof fn lemma_chained_sorted_disjoint(s: Seq<Iv>)
    requires
        ivs_chained(s),
        ivs_valid(s),
    ensures
        ivs_sorted(s),
        ivs_disjoint(s),
{
    assert forall|i: int, j: int| 0 <= i < j < s.len() implies s[i].stop <= s[j].start by {
        lemma_chained_le(s, i, j);
    }
    assert forall|i: int, j: int| 0 <= i < j < s.len() implies iv_le(s[i], s[j]) by {
        lemma_chained_le(s, i, j);
        assert(s[i].start <= s[i].stop);
        assert(s[j].start <= s[j].stop);
    }
}

/// An earlier entry of a chained layout ends at or before a later start.
proof fn lemma_chained_le(s: Seq<Iv>, i: int, j: int)
    requires
        ivs_chained(s),
        ivs_valid(s),
        0 <= i < j < s.len(),
    ensures
        s[i].stop <= s[j].start,
    decreases j - i,
{
    if j == i + 1 {
    } else {
        lemma_chained_le(s, i, j - 1);
        assert(s[j - 1].stop <= s[j].start);
        assert(s[j - 1].start <= s[j - 1].stop);
    }
}

/// Filtering on a range that contains every entry keeps the whole summed
/// width: only zero-width entries can fail the range test.
pub proof fn lemma_sum_filter_span(s: Seq<Iv>, lo: int, hi: int)
    requires
        ivs_valid(s),
        forall|k: int| 0 <= k < s.len() ==> lo <= (#[trigger] s[k]).start && s[k].stop <= hi,
    ensures
        sum_lens(s.filter(hits_pred(lo, hi))) == sum_lens(s),
    decreases s.len(),
{
    reveal(Seq::filter);
    if s.len() > 0 {
        let t = s.drop_last();
        assert forall|k: int| 0 <= k < t.len() implies ((#[trigger] t[k]).start <= t[k].stop && lo
            <= t[k].start && t[k].stop <= hi) by {
            assert(s[k].start <= s[k].stop);
            assert(lo <= s[k].start && s[k].stop <= hi);
        }
        lemma_sum_filter_span(t, lo, hi);
        assert(s.last().start <= s.last().stop);
        assert(lo <= s.last().start && s.last().stop <= hi);
        if hits_pred(lo, hi)(s.last()) {
            assert(t.filter(hits_pred(lo, hi)).push(s.last()).drop_last() =~= t.filter(
                hits_pred(lo, hi),
            ));
        } else {
            assert(iv_len(s.last()) == 0);
        }
    }
}

/// The point `p` lies inside the interval.
pub open spec fn in_iv(iv: Iv, p: int) -> bool {
    iv.start <= p < iv.stop
}

/// Appending an interval extends the covered point set by exactly that
/// interval's points.
pub proof fn lemma_covers_push(t: Seq<Iv>, x: Iv, p: int)
    ensures
        covers(t.push(x), p) <==> (covers(t, p) || in_iv(x, p)),
{
    if covers(t, p) {
        let k = choose|k: int| 0 <= k < t.len() && (#[trigger] t[k]).start <= p < t[k].stop;
        assert(t.push(x)[k] == t[k]);
    }
    if in_iv(x, p) {
        assert(t.push(x)[t.len() as int] == x);
    }
    if covers(t.push(x), p) {
        let u = t.push(x);
        let k = choose|k: int| 0 <= k < u.len() && (#[trigger] u[k]).start <= p < u[k].stop;
        if k < t.len() {
            assert(t[k] == u[k]);
        }
    }
}

/// For a sorted, separated sequence of valid ranges the sweep from entry `i`
/// counts each remaining entry in full: it yields the summed widths of the
/// suffix, provided the watermark sits at or below the next start.
pub proof fn lemma_separated_cov(s: Seq<Iv>, i: int, hi: int)
    requires
        ivs_sorted(s),
        ivs_separated(s),
        ivs_valid(s),
        0 <= i <= s.len(),
        i < s.len() ==> hi <= s[i].start,
    ensures
        cov_from(s, i, hi) == sum_lens(s) - sum_lens(s.take(i)),
    decreases s.len() - i,
{
    broadcast use vstd::prelude::Seq::lemma_take_succ_push;
    broadcast use vstd::prelude::Seq::lemma_take_len;

    if i == s.len() {
        assert(s.take(i) == s);
    } else {
        lemma_separated_cov(s, i + 1, s[i].stop as int);
        assert(s.take(i + 1).drop_last() == s.take(i));
        assert(sum_lens(s.take(i + 1)) == sum_lens(s.take(i)) + iv_len(s[i]));
    }
}

/// Ordered container of intervals.  Construction sorts; all queries are
/// stated against the sorted view.
#[derive(Debug)]
pub struct IntervalIndex {
    ivs: Vec<Iv>,
}

impl View for IntervalIndex {
    type V = Seq<Iv>;

    closed spec fn view(&self) -> Seq<Iv> {
        self.ivs@
    }
}

impl IntervalIndex {
    /// Well-formedness: the view is sorted.  `new` establishes it and every
    /// mutating method keeps it.
    pub open spec fn wf(&self) -> bool {
        ivs_sorted(self@)
    }

    /// Build an index from intervals in any order: the result holds exactly
    /// the given intervals, sorted by start (ties by stop).
    pub fn new(ivs: Vec<Iv>) -> (r: Self)
        ensures
            r.wf(),
            r@.to_multiset() == ivs@.to_multiset(),
            r@.len() == ivs@.len(),
    {
        let mut v = ivs;
        sort_ivs(&mut v);
        IntervalIndex { ivs: v }
    }

    /// Build an index from intervals that are already in sorted order; the
    /// view is exactly the given sequence.
    pub fn from_sorted(ivs: Vec<Iv>) -> (r: Self)
        requires
            ivs_sorted(ivs@),
        ensures
            r.wf(),
            r@ == ivs@,
    {
        IntervalIndex { ivs }
    }

    /// Number of intervals held.
    pub fn len(&self) -> (n: usize)
        ensures
            n == self@.len(),
    {
        self.ivs.len()
    }

    /// The interval at position `i` of the sorted order.
    pub fn get(&self, i: usize) -> (iv: Iv)
        requires
            i < self@.len(),
        ensures
            iv == self@[i as int],
    {
        self.ivs[i]
    }

    /// All intervals intersecting the query range [lo, hi), in index order.
    /// A zero-width query [p, p) returns the intervals holding p strictly
    /// inside; a point is best queried as [p, p + 1).
    pub fn find(&self, lo: u64, hi: u64) -> (r: Vec<Iv>)
        ensures
            r@ == self@.filter(hits_pred(lo as int, hi as int)),
    {
        let ghost pred = hits_pred(lo as int, hi as int);
        let n = self.ivs.len();
        let mut r: Vec<Iv> = Vec::new();
        let mut i: usize = 0;
        while i < n
            invariant
                n == self@.len(),
                0 <= i <= n,
                pred == hits_pred(lo as int, hi as int),
                r@ == self@.take(i as int).filter(pred),
            decreases n - i,
        {
            let iv = self.ivs[i];
            proof {
                broadcast use vstd::prelude::Seq::lemma_filter_push;
                broadcast use vstd::prelude::Seq::lemma_take_succ_push;

                assert(pred(self@[i as int]) == iv_hits(iv, lo as int, hi as int));
            }
            if iv.start < hi && lo < iv.stop {
                r.push(iv);
            }
            i = i + 1;
        }
        proof {
            broadcast use vstd::prelude::Seq::lemma_take_len;

        }
        r
    }

    /// Total number of covered bases; overlapping entries are counted once.
    pub fn cov(&self) -> (c: u64)
        requires
            self.wf(),
        ensures
            c == cover(self@),
    {
        let n = self.ivs.len();
        let mut acc: u64 = 0;
        let mut hi: u64 = 0;
        let mut i: usize = 0;
        while i < n
            invariant
                n == self@.len(),
                0 <= i <= n,
                acc <= hi,
                cover(self@) == acc + cov_from(self@, i as int, hi as int),
            decreases n - i,
        {
            let iv = self.ivs[i];
            let lo = if iv.start > hi {
                iv.start
            } else {
                hi
            };
            if iv.stop > lo {
                acc = acc + (iv.stop - lo);
            }
            if iv.stop > hi {
                hi = iv.stop;
            }
            i = i + 1;
        }
        acc
    }

    /// Covered bases within [lo, hi), for an index whose entries are
    /// separated (as after `merge_overlaps`).
    pub fn cov_range(&self, lo: u64, hi: u64) -> (c: u64)
        requires
            self.wf(),
            ivs_separated(self@),
            ivs_valid(self@),
            lo <= hi,
        ensures
            c == cov_in(self@, lo as int, hi as int),
    {
        broadcast use vstd::prelude::Seq::lemma_take_succ_push;
        broadcast use vstd::prelude::Seq::lemma_take_len;

        let ghost s = self@;
        let n = self.ivs.len();
        let mut acc: u64 = 0;
        let mut i: usize = 0;
        while i < n
            invariant
                s == self@,
                self.wf(),
                ivs_separated(s),
                ivs_valid(s),
                lo <= hi,
                n == s.len(),
                0 <= i <= n,
                acc == cov_in(s.take(i as int), lo as int, hi as int),
                acc <= hi - lo,
            decreases n - i,
        {
            let iv = self.ivs[i];
            let a = if iv.start > lo {
                iv.start
            } else {
                lo
            };
            let b = if iv.stop < hi {
                iv.stop
            } else {
                hi
            };
            proof {
                assert(s.take(i as int + 1).drop_last() =~= s.take(i as int));
                assert(cov_in(s.take(i as int + 1), lo as int, hi as int) == cov_in(
                    s.take(i as int),
                    lo as int,
                    hi as int,
                ) + clip_len(s[i as int], lo as int, hi as int));
                assert forall|x: int, y: int|
                    0 <= x < y < i as int + 1 implies #[trigger] iv_le(
                    s.take(i as int + 1)[x],
                    s.take(i as int + 1)[y],
                ) by {
                    assert(iv_le(s[x], s[y]));
                }
                assert forall|x: int|
                    0 <= x < i as int implies (#[trigger] s.take(i as int + 1)[x]).stop < s.take(
                    i as int + 1,
                )[x + 1].start by {
                    assert(s[x].stop < s[x + 1].start);
                }
                assert forall|x: int|
                    0 <= x < i as int + 1 implies (#[trigger] s.take(i as int + 1)[x]).start
                    <= s.take(i as int + 1)[x].stop by {
                    assert(s[x].start <= s[x].stop);
                }
                lemma_cov_in_bound(s.take(i as int + 1), lo as int, hi as int);
            }
            if b > a {
                acc = acc + (b - a);
            }
            i = i + 1;
        }
        acc
    }

    /// Rewrite the index so that no two intervals overlap or touch:
    /// overlapping or adjacent intervals are unioned.  The covered point set
    /// is unchanged, and afterwards the total cover equals the summed widths.
    /// An index that is already separated comes back unchanged.
    #[verifier::rlimit(60)]
    pub fn merge_overlaps(&mut self)
        requires
            old(self).wf(),
            ivs_valid(old(self)@),
        ensures
            final(self).wf(),
            ivs_valid(final(self)@),
            ivs_separated(final(self)@),
            ivs_disjoint(final(self)@),
            forall|p: int| covers(final(self)@, p) <==> covers(old(self)@, p),
            sum_lens(final(self)@) == cover(old(self)@),
            cover(final(self)@) == cover(old(self)@),
            final(self)@.len() <= old(self)@.len(),
            ivs_separated(old(self)@) ==> final(self)@ == old(self)@,
    {
        broadcast use vstd::prelude::Seq::lemma_take_succ_push;
        broadcast use vstd::prelude::Seq::lemma_take_len;

        let ghost s = self@;
        let n = self.ivs.len();
        if n == 0 {
            assert(s.take(0) == s);
            return ;
        }
        let mut res: Vec<Iv> = Vec::new();
        let mut cur: Iv = self.ivs[0];
        let mut i: usize = 1;
        proof {
            assert forall|p: int| covers(res@, p) || in_iv(cur, p) <==> covers(
                s.take(1),
                p,
            ) by {
                lemma_covers_push(res@, cur, p);
                assert(res@.push(cur) =~= s.take(1));
            }
            assert forall|j: int| 1 <= j < n implies cur.start <= (#[trigger] s[j]).start by {
                assert(iv_le(s[0], s[j]));
            }
        }
        while i < n
            invariant
                self.wf(),
                ivs_valid(s),
                s == self@,
                n == s.len(),
                1 <= i <= n,
                ivs_sorted(res@),
                ivs_separated(res@),
                ivs_valid(res@),
                res@.len() <= i as int - 1,
                cur.start <= cur.stop,
                forall|k: int| 0 <= k < res@.len() ==> (#[trigger] res@[k]).stop < cur.start,
                forall|j: int| i <= j < n ==> cur.start <= (#[trigger] s[j]).start,
                cover(s) == sum_lens(res@) + iv_len(cur) + cov_from(s, i as int, cur.stop as int),
                forall|p: int|
                    #![trigger covers(s.take(i as int), p)]
                    covers(res@, p) || in_iv(cur, p) <==> covers(s.take(i as int), p),
                ivs_separated(s) ==> res@ == s.take(i as int - 1) && cur == s[i as int - 1],
            decreases n - i,
        {
            let iv = self.ivs[i];
            let ghost res_old = res@;
            let ghost cur_old = cur;
            if iv.start <= cur.stop {
                if iv.stop > cur.stop {
                    cur = Iv { start: cur.start, stop: iv.stop, val: cur.val };
                }
                proof {
                    assert forall|p: int|
                        #![trigger covers(s.take(i as int + 1), p)]
                        covers(res@, p) || in_iv(cur, p) <==> covers(s.take(i as int + 1), p) by {
                        assert(covers(res_old, p) || in_iv(cur_old, p) <==> covers(
                            s.take(i as int),
                            p,
                        ));
                        assert(cur_old.start <= (s[i as int]).start);
                        lemma_covers_push(s.take(i as int), s[i as int], p);
                        assert(s.take(i as int).push(s[i as int]) =~= s.take(i as int + 1));
                    }
                }
            } else {
                res.push(cur);
                cur = iv;
                proof {
                    assert forall|j: int|
                        i as int + 1 <= j < n implies cur.start <= (#[trigger] s[j]).start by {
                        assert(iv_le(s[i as int], s[j]));
                    }
                    assert forall|p: int|
                        #![trigger covers(s.take(i as int + 1), p)]
                        covers(res@, p) || in_iv(cur, p) <==> covers(s.take(i as int + 1), p) by {
                        assert(covers(res_old, p) || in_iv(cur_old, p) <==> covers(
                            s.take(i as int),
                            p,
                        ));
                        lemma_covers_push(res_old, cur_old, p);
                        lemma_covers_push(s.take(i as int), s[i as int], p);
                        assert(s.take(i as int).push(s[i as int]) =~= s.take(i as int + 1));
                    }
                    assert(res@.drop_last() =~= res_old);
                    assert(sum_lens(res@) == sum_lens(res_old) + iv_len(cur_old));
                }
            }
            i = i + 1;
        }
        let ghost res_last = res@;
        res.push(cur);
        proof {
            assert(s.take(n as int) == s);
            assert(res@.drop_last() =~= res_last);
            assert(sum_lens(res@) == sum_lens(res_last) + iv_len(cur));
            assert forall|p: int| covers(res@, p) <==> covers(s, p) by {
                assert(covers(res_last, p) || in_iv(cur, p) <==> covers(s.take(n as int), p));
                lemma_covers_push(res_last, cur, p);
                assert(res_last.push(cur) =~= res@);
            }
            if ivs_separated(s) {
                assert(res@ =~= s);
            }
        }
        self.ivs = res;
        proof {
            lemma_separated_cov(self@, 0, 0);
            assert(self@.take(0) =~= Seq::<Iv>::empty());
            assert forall|a: int, b: int|
                0 <= a < b < self@.len() implies !ivs_overlap(self@[a], self@[b]) by {
                assert(self@[a].stop < self@[a + 1].start);
                if a + 1 < b {
                    assert(iv_le(self@[a + 1], self@[b]));
                }
            }
        }
    }
}

/// Insertion sort under `iv_le`; keeps exactly the same intervals.
fn sort_ivs(v: &mut Vec<Iv>)
    ensures
        final(v)@.len() == old(v)@.len(),
        final(v)@.to_multiset() == old(v)@.to_multiset(),
        ivs_sorted(final(v)@),
{
    let n = v.len();
    let mut i: usize = 0;
    while i < n
        invariant
            n == v@.len(),
            0 <= i <= n,
            v@.to_multiset() == old(v)@.to_multiset(),
            forall|a: int, b: int| 0 <= a < b < i ==> iv_le(v@[a], v@[b]),
        decreases n - i,
    {
        let mut j: usize = i;
        while j > 0
            invariant_except_break
                n == v@.len(),
                0 <= j <= i < n,
                v@.to_multiset() == old(v)@.to_multiset(),
                forall|a: int, b: int| 0 <= a < b <= i && b != j ==> iv_le(v@[a], v@[b]),
            ensures
                n == v@.len(),
                0 <= j <= i < n,
                v@.to_multiset() == old(v)@.to_multiset(),
                forall|a: int, b: int| 0 <= a < b <= i && b != j ==> iv_le(v@[a], v@[b]),
                j == 0 || iv_le(v@[j as int - 1], v@[j as int]),
            decreases j,
        {
            if le(&v[j - 1], &v[j]) {
                break ;
            }
            let ghost prev = v@;
            let x = v[j - 1];
            let y = v[j];
            v.set(j - 1, y);
            v.set(j, x);
            proof {
                broadcast use vstd::seq_lib::group_to_multiset_ensures;

                assert(v@ == prev.update(j as int - 1, y).update(j as int, x));
                assert(prev.update(j as int - 1, y)[j as int] == y);
                assert(prev.contains(x));
                assert(v@.to_multiset() =~= prev.to_multiset());
            }
            j = j - 1;
        }
        proof {
            assert forall|a: int, b: int| 0 <= a < b <= i implies iv_le(v@[a], v@[b]) by {
                if b == j && j > 0 {
                    if a < j - 1 {
                        assert(iv_le(v@[a], v@[j as int - 1]));
                    }
                    assert(iv_le(v@[j as int - 1], v@[j as int]));
                }
            }
        }
        i = i + 1;
    }
}

/// Executable form of `iv_le`.
fn le(a: &Iv, b: &Iv) -> (r: bool)
    ensures
        r == iv_le(*a, *b),
{
    a.start < b.start || (a.start == b.start && a.stop <= b.stop)
}

} // verus!
