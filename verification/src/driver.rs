//! The permutation driver's verified pieces: the A/B swap heuristic and the
//! chunk of permutations each worker runs.  Thread spawning and joining
//! stand outside; every worker calls `run_permutations` for its chunk and
//! the chunks are concatenated in worker order.
use vstd::prelude::*;

verus! {

use crate::intervals::{IntervalIndex, Iv, ivs_separated, ivs_valid};
use crate::loader::{GenomeShift, MAX_COORD, budget_matches};
use crate::overlappers::Overlapper;
use crate::randomizers::{
    Randomizer,
    RandError,
    shuffle_bad,
    circle_bad,
    shuffle_outcome,
    circle_outcome,
    novl_outcome,
    in_scope_ok,
    novl_out_len,
    lemma_circle_seq_props,
    circle_seq,
};

/// Why a permutation run stopped.
#[derive(Clone, Copy, PartialEq, Eq, Structural, Debug)]
pub enum DriverError {
    /// A randomization failed; the strategy's own error says how.
    Rand(RandError),
    /// A randomized set would have more intersecting pairs than a u64 count
    /// can hold.
    CountOverflow,
}

/// The chosen strategy must fail on this input, whatever is drawn.
pub open spec fn ize_fails(random: Randomizer, g: GenomeShift, a: Seq<Iv>, per_chrom: bool) -> bool {
    match random {
        Randomizer::Shuffle => exists|k: int|
            0 <= k < a.len() && shuffle_bad(g, #[trigger] a[k], per_chrom),
        Randomizer::Circle => exists|k: int|
            0 <= k < a.len() && circle_bad(g, #[trigger] a[k], per_chrom),
        Randomizer::Novl => g.budget_spec() is None,
    }
}

/// The count `c` is what the chosen counter yields on some set the chosen
/// strategy can produce from `a` under the genome model.
pub open spec fn perm_count_ok(
    random: Randomizer,
    count: Overlapper,
    g: GenomeShift,
    a: Seq<Iv>,
    b: Seq<Iv>,
    per_chrom: bool,
    c: u64,
) -> bool {
    match random {
        Randomizer::Shuffle => exists|rs: Seq<Iv>|
            #[trigger] shuffle_outcome(g, a, rs) && c == count.spec_ovl(rs, b),
        Randomizer::Circle => exists|rs: Seq<Iv>|
            #[trigger] circle_outcome(g, a, per_chrom, rs) && c == count.spec_ovl(rs, b),
        Randomizer::Novl => exists|rs: Seq<Iv>|
            #[trigger] novl_outcome(g, a, per_chrom, rs) && c == count.spec_ovl(rs, b),
    }
}

/// Swaps A for B when allowed and A is the larger set, so that the counter
/// scans the smaller side; says whether it swapped.
pub fn maybe_swap(a_intv: IntervalIndex, b_intv: IntervalIndex, no_swap: bool) -> (r: (
    IntervalIndex,
    IntervalIndex,
    bool,
))
    ensures
        r.2 == (!no_swap && a_intv@.len() > b_intv@.len()),
        r.2 ==> r.0 == b_intv && r.1 == a_intv,
        !r.2 ==> r.0 == a_intv && r.1 == b_intv,
{
    let swapped = !no_swap && a_intv.len() > b_intv.len();
    if swapped {
        (b_intv, a_intv, true)
    } else {
        (a_intv, b_intv, false)
    }
}

/// Runs `n` permutations: each randomizes A under the genome model and
/// counts its overlaps with B.  On success every returned count is the
/// counter's value on a set the strategy can produce; success is owed
/// whenever the strategy cannot fail and the randomized set's pair count
/// provably fits a u64.
#[verifier::rlimit(100)]
pub fn run_permutations(
    a_intv: &IntervalIndex,
    b_intv: &IntervalIndex,
    genome: &GenomeShift,
    random: Randomizer,
    count: Overlapper,
    per_chrom: bool,
    n: u32,
) -> (r: Result<Vec<u64>, DriverError>)
    requires
        genome.wf(),
        a_intv.wf(),
        ivs_valid(a_intv@),
        forall|k: int| 0 <= k < a_intv@.len() ==> (#[trigger] a_intv@[k]).stop <= MAX_COORD,
        random is Circle ==> genome.span > 0,
        random is Novl ==> ivs_separated(a_intv@) && (forall|k: int|
            0 <= k < a_intv@.len() ==> (#[trigger] a_intv@[k]).stop <= genome.span) && (
        genome.budget_spec() is Some ==> budget_matches(*genome, a_intv@, per_chrom)),
    ensures
        r is Ok ==> r.unwrap()@.len() == n,
        r is Ok ==> forall|j: int|
            0 <= j < r.unwrap()@.len() ==> perm_count_ok(
                random,
                count,
                *genome,
                a_intv@,
                b_intv@,
                per_chrom,
                #[trigger] r.unwrap()@[j],
            ),
        (r matches Err(e) && e matches DriverError::Rand(_)) <==> (n > 0 && ize_fails(
            random,
            *genome,
            a_intv@,
            per_chrom,
        )),
        random is Shuffle && !ize_fails(random, *genome, a_intv@, per_chrom) && a_intv@.len()
            * b_intv@.len() <= u64::MAX ==> r is Ok,
        random is Circle && (forall|k: int|
            0 <= k < a_intv@.len() ==> in_scope_ok(*genome, #[trigger] a_intv@[k], per_chrom))
            && 2 * a_intv@.len() * b_intv@.len() <= u64::MAX ==> r is Ok,
        random is Novl && genome.budget_spec() is Some && novl_out_len(*genome, a_intv@, per_chrom)
            * b_intv@.len() <= u64::MAX ==> r is Ok,
{
    let mut out: Vec<u64> = Vec::new();
    let mut t: u32 = 0;
    while t < n
        invariant
            genome.wf(),
            a_intv.wf(),
            ivs_valid(a_intv@),
            forall|k: int| 0 <= k < a_intv@.len() ==> (#[trigger] a_intv@[k]).stop <= MAX_COORD,
            random is Circle ==> genome.span > 0,
            random is Novl ==> ivs_separated(a_intv@) && (forall|k: int|
                0 <= k < a_intv@.len() ==> (#[trigger] a_intv@[k]).stop <= genome.span) && (
            genome.budget_spec() is Some ==> budget_matches(*genome, a_intv@, per_chrom)),
            0 <= t <= n,
            out@.len() == t,
            t > 0 ==> !ize_fails(random, *genome, a_intv@, per_chrom),
            forall|j: int|
                0 <= j < out@.len() ==> perm_count_ok(
                    random,
                    count,
                    *genome,
                    a_intv@,
                    b_intv@,
                    per_chrom,
                    #[trigger] out@[j],
                ),
        decreases n - t,
    {
        let ri = match random.ize(a_intv, genome, per_chrom) {
            Ok(ri) => ri,
            Err(e) => {
                return Err(DriverError::Rand(e));
            },
        };
        let rl = ri.len();
        let bl = b_intv.len();
        proof {
            vstd::arithmetic::mul::lemma_mul_upper_bound(
                rl as int,
                0xffff_ffff_ffff_ffffu64 as int,
                bl as int,
                0xffff_ffff_ffff_ffffu64 as int,
            );
        }
        if (rl as u128) * (bl as u128) > u64::MAX as u128 {
            proof {
                broadcast use vstd::seq_lib::group_to_multiset_ensures;

                if random is Circle && (forall|k: int|
                    0 <= k < a_intv@.len() ==> in_scope_ok(
                        *genome,
                        #[trigger] a_intv@[k],
                        per_chrom,
                    )) {
                    let d = choose|d: int|
                        0 <= d < genome.span && ri@.to_multiset() == #[trigger] circle_seq(
                            a_intv@,
                            *genome,
                            per_chrom,
                            d,
                        ).to_multiset();
                    lemma_circle_seq_props(a_intv@, *genome, per_chrom, d);
                    assert(ri@.to_multiset().len() == circle_seq(
                        a_intv@,
                        *genome,
                        per_chrom,
                        d,
                    ).to_multiset().len());
                    assert(ri@.len() == circle_seq(a_intv@, *genome, per_chrom, d).len());
                    vstd::arithmetic::mul::lemma_mul_inequality(
                        rl as int,
                        2 * a_intv@.len() as int,
                        bl as int,
                    );
                }
            }
            return Err(DriverError::CountOverflow);
        }
        let c = count.ovl(&ri, b_intv);
        let ghost prev = out@;
        out.push(c);
        proof {
            if random is Shuffle {
                assert(shuffle_outcome(*genome, a_intv@, ri@));
            } else if random is Circle {
                assert(circle_outcome(*genome, a_intv@, per_chrom, ri@));
            } else {
                assert(novl_outcome(*genome, a_intv@, per_chrom, ri@));
            }
            assert(perm_count_ok(random, count, *genome, a_intv@, b_intv@, per_chrom, c));
            assert forall|j: int|
                0 <= j < out@.len() implies perm_count_ok(
                random,
                count,
                *genome,
                a_intv@,
                b_intv@,
                per_chrom,
                #[trigger] out@[j],
            ) by {
                if j < prev.len() {
                    assert(out@[j] == prev[j]);
                    assert(perm_count_ok(
                        random,
                        count,
                        *genome,
                        a_intv@,
                        b_intv@,
                        per_chrom,
                        prev[j],
                    ));
                } else {
                    assert(out@[j] == c);
                }
            }
        }
        t = t + 1;
    }
    Ok(out)
}

} // verus!