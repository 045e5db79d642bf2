//! Integer core of the statistics: the exact parts of the permutation test
//! summary, and the overlap counts behind the local z-score scan.  The
//! floating-point summary values (mean, standard deviation, z-score, the
//! quotient p-value) are computed outside the library from these parts.
use vstd::prelude::*;

verus! {

use crate::intervals::{IntervalIndex, ivs_valid};
use crate::loader::MAX_COORD;
use crate::overlappers::Overlapper;
use crate::randomizers::{shift_intervals, shift_seq};

/// Sum of a count distribution.
pub open spec fn sum_seq(s: Seq<u64>) -> int
    decreases s.len(),
{
    if s.len() == 0 {
        0
    } else {
        sum_seq(s.drop_last()) + s.last()
    }
}

/// How many entries are at most `x`.
pub open spec fn count_le(s: Seq<u64>, x: u64) -> int
    decreases s.len(),
{
    if s.len() == 0 {
        0
    } else {
        count_le(s.drop_last(), x) + if s.last() <= x {
            1int
        } else {
            0int
        }
    }
}

/// How many entries are at least `x`.
pub open spec fn count_ge(s: Seq<u64>, x: u64) -> int
    decreases s.len(),
{
    if s.len() == 0 {
        0
    } else {
        count_ge(s.drop_last(), x) + if s.last() >= x {
            1int
        } else {
            0int
        }
    }
}

/// The alternate hypothesis: `l` when the observed count lies below the
/// distribution mean (observed times n below the summed counts), `g`
/// otherwise.
pub open spec fn spec_alt(observed: u64, perms: Seq<u64>) -> char {
    if observed * perms.len() < sum_seq(perms) {
        'l'
    } else {
        'g'
    }
}

/// A distribution prefix sums within `t` entries of the maximum each.
proof fn lemma_sum_seq_take(s: Seq<u64>, t: int)
    requires
        0 <= t <= s.len(),
    ensures
        0 <= sum_seq(s.take(t)) <= t * 0xffff_ffff_ffff_ffffu64,
    decreases t,
{
    if t == 0 {
        assert(s.take(0) =~= Seq::<u64>::empty());
    } else {
        lemma_sum_seq_take(s, t - 1);
        assert(s.take(t).drop_last() =~= s.take(t - 1));
    }
}

/// Exact integer parts of the permutation test summary: the observed count,
/// the distribution's length and total, the alternate hypothesis, and the
/// p-value as an exact fraction p_num / p_den.  The p-value numerator is
/// always at least 1 and never above the denominator, which is one more
/// than the number of permutations: the p-value lies in (0, 1] and is never
/// below 1 / (n + 1).
pub struct PermTest {
    /// The observed overlap count.
    pub observed: u64,
    /// Number of permutations summarized.
    pub num_perms: u64,
    /// Sum of the permutation counts.
    pub total: u128,
    /// Alternate hypothesis direction: 'l' less, 'g' greater.
    pub alt: char,
    /// p-value numerator: the tail count plus one.
    pub p_num: u64,
    /// p-value denominator: the number of permutations plus one.
    pub p_den: u64,
}

impl PermTest {
    /// Summarizes a permutation distribution against the observed count.
    pub fn new(observed: u64, perms: &Vec<u64>) -> (r: PermTest)
        requires
            perms@.len() < u64::MAX,
        ensures
            r.observed == observed,
            r.num_perms == perms@.len(),
            r.total == sum_seq(perms@),
            r.alt == spec_alt(observed, perms@),
            r.alt == 'l' ==> r.p_num == count_le(perms@, observed) + 1,
            r.alt == 'g' ==> r.p_num == count_ge(perms@, observed) + 1,
            r.p_den == perms@.len() + 1,
            1 <= r.p_num <= r.p_den,
    {
        broadcast use vstd::prelude::Seq::lemma_take_succ_push;
        broadcast use vstd::prelude::Seq::lemma_take_len;

        let ghost s = perms@;
        let n = perms.len();
        let mut total: u128 = 0;
        let mut i: usize = 0;
        proof {
            assert(s.take(0) =~= Seq::<u64>::empty());
        }
        while i < n
            invariant
                s == perms@,
                n == s.len(),
                0 <= i <= n,
                total == sum_seq(s.take(i as int)),
            decreases n - i,
        {
            proof {
                lemma_sum_seq_take(s, i as int + 1);
                assert(s.take(i as int + 1).drop_last() =~= s.take(i as int));
            }
            total = total + (perms[i] as u128);
            i = i + 1;
        }
        proof {
            assert(s.take(n as int) == s);
        }

        proof {
            vstd::arithmetic::mul::lemma_mul_upper_bound(
                observed as int,
                0xffff_ffff_ffff_ffffu64 as int,
                n as int,
                0xffff_ffff_ffff_ffffu64 as int,
            );
        }
        let is_less = (observed as u128) * (n as u128) < total;
        let alt: char = if is_less {
            'l'
        } else {
            'g'
        };
        let mut p_count: u64 = 0;
        let mut j: usize = 0;
        proof {
            assert(s.take(0) =~= Seq::<u64>::empty());
        }
        while j < n
            invariant
                s == perms@,
                n == s.len(),
                n < u64::MAX,
                0 <= j <= n,
                p_count <= j,
                is_less ==> p_count == count_le(s.take(j as int), observed),
                !is_less ==> p_count == count_ge(s.take(j as int), observed),
            decreases n - j,
        {
            proof {
                assert(s.take(j as int + 1).drop_last() =~= s.take(j as int));
            }
            let d = perms[j];
            if is_less {
                if d <= observed {
                    p_count = p_count + 1;
                }
            } else {
                if d >= observed {
                    p_count = p_count + 1;
                }
            }
            j = j + 1;
        }
        proof {
            assert(s.take(n as int) == s);
        }
        PermTest {
            observed,
            num_perms: n as u64,
            total,
            alt,
            p_num: p_count + 1,
            p_den: n as u64 + 1,
        }
    }
}

/// The overlap counts of the local z-score scan: for each offset from
/// -window (inclusive) to window (exclusive) in steps of `step`, the
/// overlap count of A shifted by that offset against B.
pub fn local_shift_counts(
    a_intv: &IntervalIndex,
    b_intv: &IntervalIndex,
    count: Overlapper,
    window: i64,
    step: u64,
) -> (r: Vec<u64>)
    requires
        a_intv.wf(),
        ivs_valid(a_intv@),
        forall|k: int| 0 <= k < a_intv@.len() ==> (#[trigger] a_intv@[k]).stop <= MAX_COORD,
        window <= MAX_COORD as i64,
        1 <= step <= MAX_COORD,
        a_intv@.len() * b_intv@.len() <= u64::MAX,
    ensures
        window <= 0 ==> r@.len() == 0,
        window > 0 ==> r@.len() >= 1,
        forall|j: int|
            0 <= j < r@.len() ==> r@[j] == count.spec_ovl(
                shift_seq(a_intv@, -window + j * step),
                b_intv@,
            ),
        -window + r@.len() * step >= window,
        r@.len() > 0 ==> -window + (r@.len() - 1) * step < window,
{
    let mut r: Vec<u64> = Vec::new();
    if window <= 0 {
        return r;
    }
    let mut delta: i64 = -window;
    proof {
        vstd::arithmetic::mul::lemma_mul_basics(step as int);
        assert(r@.len() == 0);
    }
    while delta < window
        invariant
            a_intv.wf(),
            ivs_valid(a_intv@),
            forall|k: int| 0 <= k < a_intv@.len() ==> (#[trigger] a_intv@[k]).stop <= MAX_COORD,
            0 < window <= MAX_COORD as i64,
            1 <= step <= MAX_COORD,
            a_intv@.len() * b_intv@.len() <= u64::MAX,
            delta == -window + r@.len() * step,
            delta <= window + step,
            r@.len() > 0 ==> -window + (r@.len() - 1) * step < window,
            forall|j: int|
                0 <= j < r@.len() ==> r@[j] == count.spec_ovl(
                    shift_seq(a_intv@, -window + j * step),
                    b_intv@,
                ),
        decreases window + step - delta,
    {
        let shifted = shift_intervals(a_intv, delta);
        proof {
            crate::randomizers::lemma_shift_seq_len(a_intv@, delta as int);
            vstd::arithmetic::mul::lemma_mul_inequality(
                shifted@.len() as int,
                a_intv@.len() as int,
                b_intv@.len() as int,
            );
        }
        let c = count.ovl(&shifted, b_intv);
        let ghost prev = r@;
        r.push(c);
        proof {
            let ghost m = prev.len() as int;
            assert((m + 1) * step == m * step + step) by (nonlinear_arith);
            assert forall|j: int|
                0 <= j < r@.len() implies r@[j] == count.spec_ovl(
                shift_seq(a_intv@, -window + j * step),
                b_intv@,
            ) by {
                if j < m {
                    assert(r@[j] == prev[j]);
                } else {
                    crate::overlappers::lemma_counts_multiset(
                        shifted@,
                        shift_seq(a_intv@, delta as int),
                        b_intv@,
                    );
                }
            }
        }
        delta = delta + (step as i64);
    }
    proof {
        let ghost m = r@.len() as int;
        if m > 0 {
            assert((m - 1) * step == m * step - step) by (nonlinear_arith);
        }
    }
    r
}

} // verus!
