//! Overlap counters: how many intersections an interval set A has with B.
use vstd::prelude::*;

verus! {

use crate::intervals::{
    IntervalIndex,
    Iv,
    ivs_overlap,
    hits_pred,
    iv_hits,
};

/// Number of entries of `b` that intersect `iv`, duplicates counted.
pub open spec fn count_hits(b: Seq<Iv>, iv: Iv) -> int
    decreases b.len(),
{
    if b.len() == 0 {
        0
    } else {
        count_hits(b.drop_last(), iv) + if ivs_overlap(b.last(), iv) {
            1int
        } else {
            0int
        }
    }
}

/// Some entry of `b` intersects `iv`.
pub open spec fn has_hit(b: Seq<Iv>, iv: Iv) -> bool {
    exists|j: int| 0 <= j < b.len() && ivs_overlap(#[trigger] b[j], iv)
}

/// Total number of intersecting pairs (a, b) over a in `a`, b in `b`.
pub open spec fn all_count(a: Seq<Iv>, b: Seq<Iv>) -> int
    decreases a.len(),
{
    if a.len() == 0 {
        0
    } else {
        all_count(a.drop_last(), b) + count_hits(b, a.last())
    }
}

/// Number of entries of `a` with at least one intersecting entry in `b`.
pub open spec fn any_count(a: Seq<Iv>, b: Seq<Iv>) -> int
    decreases a.len(),
{
    if a.len() == 0 {
        0
    } else {
        any_count(a.drop_last(), b) + if has_hit(b, a.last()) {
            1int
        } else {
            0int
        }
    }
}

/// A per-interval hit count is between 0 and `b.len()`.
pub proof fn lemma_count_hits_bound(b: Seq<Iv>, iv: Iv)
    ensures
        0 <= count_hits(b, iv) <= b.len(),
    decreases b.len(),
{
    if b.len() > 0 {
        lemma_count_hits_bound(b.drop_last(), iv);
    }
}

/// A per-interval hit count is positive exactly when some entry intersects.
pub proof fn lemma_count_hits_pos(b: Seq<Iv>, iv: Iv)
    ensures
        count_hits(b, iv) > 0 <==> has_hit(b, iv),
    decreases b.len(),
{
    if b.len() > 0 {
        let t = b.drop_last();
        lemma_count_hits_pos(t, iv);
        lemma_count_hits_bound(t, iv);
        if ivs_overlap(b.last(), iv) {
            assert(ivs_overlap(b[b.len() - 1], iv));
        }
        if has_hit(t, iv) {
            let j = choose|j: int| 0 <= j < t.len() && ivs_overlap(#[trigger] t[j], iv);
            assert(ivs_overlap(b[j], iv));
        }
        if has_hit(b, iv) && !ivs_overlap(b.last(), iv) {
            let j = choose|j: int| 0 <= j < b.len() && ivs_overlap(#[trigger] b[j], iv);
            assert(ivs_overlap(t[j], iv));
        }
    }
}

/// What `IntervalIndex::find` returns for the range of `iv` has exactly
/// `count_hits(b, iv)` entries.
pub proof fn lemma_filter_count_hits(b: Seq<Iv>, iv: Iv)
    ensures
        b.filter(hits_pred(iv.start as int, iv.stop as int)).len() == count_hits(b, iv),
    decreases b.len(),
{
    reveal(Seq::filter);
    if b.len() > 0 {
        lemma_filter_count_hits(b.drop_last(), iv);
        assert(hits_pred(iv.start as int, iv.stop as int)(b.last()) == ivs_overlap(
            b.last(),
            iv,
        ));
    }
}

/// A prefix of `a` accounts for at most `k * b.len()` intersecting pairs.
pub proof fn lemma_all_count_bound(a: Seq<Iv>, b: Seq<Iv>, k: int)
    requires
        0 <= k <= a.len(),
    ensures
        0 <= all_count(a.take(k), b) <= k * b.len(),
    decreases k,
{
    broadcast use vstd::prelude::Seq::lemma_take_succ_push;

    if k == 0 {
        assert(a.take(0).len() == 0);
    } else {
        lemma_all_count_bound(a, b, k - 1);
        lemma_count_hits_bound(b, a[k - 1]);
        assert(a.take(k).drop_last() =~= a.take(k - 1));
        assert(all_count(a.take(k), b) == all_count(a.take(k - 1), b) + count_hits(b, a[k - 1]));
        assert((k - 1) * b.len() + b.len() == k * b.len()) by (nonlinear_arith);
    }
}

/// Strategy tag for counting overlaps of A with B.
#[derive(Clone, Copy, PartialEq, Eq, Structural, Debug)]
pub enum Overlapper {
    /// Count every intersecting (a, b) pair.
    All,
    /// Count the A intervals that have at least one hit in B.
    Any,
}

impl Overlapper {
    /// The count this strategy produces on given interval sequences.
    pub open spec fn spec_ovl(self, a: Seq<Iv>, b: Seq<Iv>) -> int {
        match self {
            Overlapper::All => all_count(a, b),
            Overlapper::Any => any_count(a, b),
        }
    }

    /// Count overlaps of `a_intv` with `b_intv` under this strategy.
    pub fn ovl(&self, a_intv: &IntervalIndex, b_intv: &IntervalIndex) -> (c: u64)
        requires
            a_intv@.len() * b_intv@.len() <= u64::MAX,
        ensures
            c == self.spec_ovl(a_intv@, b_intv@),
    {
        broadcast use vstd::prelude::Seq::lemma_take_succ_push;
        broadcast use vstd::prelude::Seq::lemma_take_len;

        let ghost a = a_intv@;
        let ghost b = b_intv@;
        let n = a_intv.len();
        let mut acc: u64 = 0;
        let mut i: usize = 0;
        match self {
            Overlapper::All => {
                while i < n
                    invariant
                        a == a_intv@,
                        b == b_intv@,
                        n == a.len(),
                        0 <= i <= n,
                        a.len() * b.len() <= u64::MAX,
                        acc == all_count(a.take(i as int), b),
                    decreases n - i,
                {
                    let iv = a_intv.get(i);
                    let hits = b_intv.find(iv.start, iv.stop);
                    proof {
                        lemma_filter_count_hits(b, iv);
                        lemma_all_count_bound(a, b, i as int + 1);
                        vstd::arithmetic::mul::lemma_mul_inequality(
                            i as int + 1,
                            a.len() as int,
                            b.len() as int,
                        );
                        assert(a.take(i as int + 1).drop_last() =~= a.take(i as int));
                        assert(all_count(a.take(i as int + 1), b) == all_count(a.take(i as int), b)
                            + count_hits(b, a[i as int]));
                    }
                    acc = acc + hits.len() as u64;
                    i = i + 1;
                }
            },
            Overlapper::Any => {
                while i < n
                    invariant
                        a == a_intv@,
                        b == b_intv@,
                        n == a.len(),
                        0 <= i <= n,
                        acc == any_count(a.take(i as int), b),
                        acc <= i,
                    decreases n - i,
                {
                    let iv = a_intv.get(i);
                    let hits = b_intv.find(iv.start, iv.stop);
                    proof {
                        lemma_filter_count_hits(b, iv);
                        lemma_count_hits_pos(b, iv);
                        assert(a.take(i as int + 1).drop_last() =~= a.take(i as int));
                        assert(any_count(a.take(i as int + 1), b) == any_count(a.take(i as int), b)
                            + if has_hit(b, a[i as int]) {
                                1int
                            } else {
                                0int
                            });
                    }
                    if hits.len() > 0 {
                        acc = acc + 1;
                    }
                    i = i + 1;
                }
            },
        }
        proof {
            assert(a.take(n as int) == a);
        }
        acc
    }
}

/// An empty second operand yields no pairs from either side.
pub proof fn lemma_all_count_empty(b: Seq<Iv>)
    ensures
        all_count(b, Seq::<Iv>::empty()) == 0,
    decreases b.len(),
{
    if b.len() > 0 {
        lemma_all_count_empty(b.drop_last());
    }
}

/// Dropping the last entry of the second operand removes exactly the pairs
/// that entry takes part in.
proof fn lemma_all_count_drop_second(b: Seq<Iv>, a: Seq<Iv>)
    requires
        a.len() > 0,
    ensures
        all_count(b, a) == all_count(b, a.drop_last()) + count_hits(b, a.last()),
    decreases b.len(),
{
    if b.len() == 0 {
    } else {
        lemma_all_count_drop_second(b.drop_last(), a);
    }
}

/// The pair count is symmetric: counting B hits over A equals counting A
/// hits over B.  In particular the two directions agree on merged inputs.
pub proof fn lemma_all_count_symmetric(a: Seq<Iv>, b: Seq<Iv>)
    ensures
        all_count(a, b) == all_count(b, a),
    decreases a.len(),
{
    if a.len() == 0 {
        lemma_all_count_empty(b);
        assert(a =~= Seq::<Iv>::empty());
    } else {
        lemma_all_count_symmetric(a.drop_last(), b);
        lemma_all_count_drop_second(b, a);
    }
}

/// Counting A intervals with a hit never exceeds counting all pairs.
pub proof fn lemma_any_le_all(a: Seq<Iv>, b: Seq<Iv>)
    ensures
        any_count(a, b) <= all_count(a, b),
    decreases a.len(),
{
    if a.len() > 0 {
        lemma_any_le_all(a.drop_last(), b);
        lemma_count_hits_pos(b, a.last());
        lemma_count_hits_bound(b, a.last());
    }
}

/// `all_count` as a right fold over its first operand.
proof fn lemma_all_count_fold(a: Seq<Iv>, b: Seq<Iv>, v: int)
    ensures
        a.fold_right(|iv: Iv, acc: int| acc + count_hits(b, iv), v) == all_count(a, b) + v,
    decreases a.len(),
{
    if a.len() > 0 {
        lemma_all_count_fold(a.drop_last(), b, v + count_hits(b, a.last()));
    }
}

/// `any_count` as a right fold over its first operand.
proof fn lemma_any_count_fold(a: Seq<Iv>, b: Seq<Iv>, v: int)
    ensures
        a.fold_right(
            |iv: Iv, acc: int|
                acc + if has_hit(b, iv) {
                    1int
                } else {
                    0int
                },
            v,
        ) == any_count(a, b) + v,
    decreases a.len(),
{
    if a.len() > 0 {
        lemma_any_count_fold(a.drop_last(), b, v + if has_hit(b, a.last()) {
            1int
        } else {
            0int
        });
    }
}

/// Reordering the first operand changes neither count: both are sums over
/// its entries.
pub proof fn lemma_counts_multiset(a1: Seq<Iv>, a2: Seq<Iv>, b: Seq<Iv>)
    requires
        a1.to_multiset() == a2.to_multiset(),
    ensures
        all_count(a1, b) == all_count(a2, b),
        any_count(a1, b) == any_count(a2, b),
{
    let f = |iv: Iv, acc: int| acc + count_hits(b, iv);
    assert(vstd::seq_lib::commutative_foldr(f)) by {
        assert forall|x: Iv, y: Iv, v: int| #[trigger] f(x, f(y, v)) == f(y, f(x, v)) by {
            assert(f(x, f(y, v)) == v + count_hits(b, y) + count_hits(b, x));
            assert(f(y, f(x, v)) == v + count_hits(b, x) + count_hits(b, y));
        }
    }
    vstd::seq_lib::lemma_fold_right_permutation(a1, a2, f, 0);
    lemma_all_count_fold(a1, b, 0);
    lemma_all_count_fold(a2, b, 0);
    let g = |iv: Iv, acc: int|
        acc + if has_hit(b, iv) {
            1int
        } else {
            0int
        };
    assert(vstd::seq_lib::commutative_foldr(g)) by {
        assert forall|x: Iv, y: Iv, v: int| #[trigger] g(x, g(y, v)) == g(y, g(x, v)) by {
            assert(g(x, g(y, v)) == v + (if has_hit(b, y) {
                1int
            } else {
                0int
            }) + (if has_hit(b, x) {
                1int
            } else {
                0int
            }));
            assert(g(y, g(x, v)) == v + (if has_hit(b, x) {
                1int
            } else {
                0int
            }) + (if has_hit(b, y) {
                1int
            } else {
                0int
            }));
        }
    }
    vstd::seq_lib::lemma_fold_right_permutation(a1, a2, g, 0);
    lemma_any_count_fold(a1, b, 0);
    lemma_any_count_fold(a2, b, 0);
}

} // verus!
