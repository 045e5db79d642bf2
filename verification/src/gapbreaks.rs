//! Random-sized gap fragments for the non-overlapping randomizer, and the
//! trusted wrappers around the random number generator.
use vstd::prelude::*;

verus! {

/// Fragment size control for gap breaking: a fragment is at most 1/NOVLMAGIC
/// of the remaining budget (and always at least 1 base).  Breaking the
/// uncovered span into many small pieces lowers the bias towards one giant
/// gap that would pack all intervals end to end, while staying far cheaper
/// than 1-base fragments.
pub const NOVLMAGIC: u64 = 10000;

/// Declares tinyrand's Wyrand generator (the crate's StdRand) so values of
/// it can be held and passed; the generator is opaque to verification.
#[verifier::external_type_specification]
#[verifier::external_body]
pub struct ExWyrand(tinyrand::Wyrand);

/// Relies on tinyrand_std::ClockSeed::next_u64: a seed derived from the
/// system clock.  Nothing is promised of its value.
#[verifier::external_body]
fn clock_seed() -> u64 {
    tinyrand::Rand::next_u64(&mut tinyrand_std::ClockSeed::default())
}

/// Relies on tinyrand::Seeded::seed for Wyrand: builds a generator from a
/// seed.  Nothing is promised of the generator's draws.
#[verifier::external_body]
fn rand_from_seed(seed: u64) -> tinyrand::StdRand {
    <tinyrand::StdRand as tinyrand::Seeded>::seed(seed)
}

/// A fresh generator seeded from the system clock.
pub(crate) fn new_rand() -> tinyrand::StdRand {
    rand_from_seed(clock_seed())
}

/// Relies on tinyrand::RandRange::next_range for u64: returns a value of the
/// given range, which must be non-empty (the callee panics on an empty one).
/// Nothing more is promised: the draw depends on the generator's state.
#[verifier::external_body]
pub(crate) fn rand_range(rng: &mut tinyrand::StdRand, lo: u64, hi: u64) -> (r: u64)
    requires
        lo < hi,
    ensures
        lo <= r < hi,
{
    tinyrand::RandRange::next_range(rng, lo..hi)
}

/// Holds the uncovered span of a randomization scope and a private random
/// number generator.  Repeated calls of `next` break the span into random
/// gap fragments: `(false, size)` items, distinguished from the `(true,
/// size)` items that stand for intervals during non-overlapping placement.
pub struct GapBreaks {
    total_gap_size: u64,
    rand: tinyrand::StdRand,
}

impl GapBreaks {
    /// Bases not yet handed out as fragments.
    pub closed spec fn remaining(self) -> u64 {
        self.total_gap_size
    }

    /// A breaker over `total_gap_size` uncovered bases.
    pub fn new(total_gap_size: u64) -> (r: Self)
        ensures
            r.remaining() == total_gap_size,
    {
        Self { total_gap_size, rand: new_rand() }
    }

    /// The next gap fragment: at least 1 base and less than 1/NOVLMAGIC of
    /// the remaining budget (at least 2), subtracted from the budget.
    /// `None` once the budget is exhausted.
    pub fn next(&mut self) -> (r: Option<(bool, u64)>)
        ensures
            r is Some <==> old(self).remaining() > 0,
            r is Some ==> r.unwrap().0 == false,
            r is Some ==> 1 <= r.unwrap().1 <= old(self).remaining(),
            r is Some ==> r.unwrap().1 < (if old(self).remaining() / NOVLMAGIC > 2 {
                old(self).remaining() / NOVLMAGIC
            } else {
                2
            }),
            r is Some ==> final(self).remaining() == old(self).remaining() - r.unwrap().1,
            r is None ==> final(self).remaining() == 0,
    {
        if self.total_gap_size > 0 {
            let cap = if self.total_gap_size / NOVLMAGIC > 2 {
                self.total_gap_size / NOVLMAGIC
            } else {
                2
            };
            let g_l = rand_range(&mut self.rand, 1, cap);
            proof {
                assert(self.total_gap_size / NOVLMAGIC <= self.total_gap_size) by (nonlinear_arith);
            }
            self.total_gap_size = self.total_gap_size - g_l;
            Some((false, g_l))
        } else {
            None
        }
    }

    /// All fragments at once: they sum to exactly the starting budget.
    pub fn collect_fragments(self) -> (r: Vec<(bool, u64)>)
        ensures
            fragment_sum(r@) == self.remaining(),
            forall|k: int| 0 <= k < r@.len() ==> (#[trigger] r@[k]).0 == false,
            forall|k: int| 0 <= k < r@.len() ==> (#[trigger] r@[k]).1 >= 1,
    {
        let ghost budget = self.remaining();
        let mut this = self;
        let mut r: Vec<(bool, u64)> = Vec::new();
        loop
            invariant_except_break
                fragment_sum(r@) + this.remaining() == budget,
                forall|k: int| 0 <= k < r@.len() ==> (#[trigger] r@[k]).0 == false,
                forall|k: int| 0 <= k < r@.len() ==> (#[trigger] r@[k]).1 >= 1,
            ensures
                fragment_sum(r@) == budget,
                forall|k: int| 0 <= k < r@.len() ==> (#[trigger] r@[k]).0 == false,
                forall|k: int| 0 <= k < r@.len() ==> (#[trigger] r@[k]).1 >= 1,
            decreases this.remaining(),
        {
            let item = this.next();
            match item {
                Some(g) => {
                    let ghost prev = r@;
                    r.push(g);
                    proof {
                        assert(r@.drop_last() =~= prev);
                    }
                },
                None => {
                    break ;
                },
            }
        }
        r
    }
}

/// Summed sizes of a fragment/interval item sequence.
pub open spec fn fragment_sum(s: Seq<(bool, u64)>) -> int
    decreases s.len(),
{
    if s.len() == 0 {
        0
    } else {
        fragment_sum(s.drop_last()) + s.last().1
    }
}

} // verus!
