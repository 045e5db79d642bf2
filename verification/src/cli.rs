//! The analysis options and their validation rules.  Path handling and the
//! actual command line parsing stand outside; the library checks the rules
//! that concern the core.
use vstd::prelude::*;

verus! {

use crate::overlappers::Overlapper;
use crate::randomizers::Randomizer;

/// The core analysis options.
#[derive(Clone, Copy, PartialEq, Eq, Structural, Debug)]
pub struct ArgParser {
    /// Number of permutations to perform.
    pub num_times: u32,
    /// Number of worker threads.
    pub threads: u8,
    /// Randomization strategy.
    pub random: Randomizer,
    /// Overlap counting strategy.
    pub count: Overlapper,
    /// Randomize within each chromosome rather than genome-wide.
    pub per_chrom: bool,
    /// Skip merging the inputs' overlaps before processing.
    pub no_merge: bool,
    /// Never swap A and B.
    pub no_swap: bool,
    /// Local z-score half-window.
    pub window: i64,
    /// Local z-score step.
    pub step: u64,
}

impl ArgParser {
    /// Checks the option combinations: at least one thread, and the
    /// non-overlapping strategy only on merged inputs (an unmerged input
    /// can exceed the gap budget's non-overlap assumption).
    pub fn validate(&self) -> (ok: bool)
        ensures
            ok == (self.threads >= 1 && !(self.random is Novl && self.no_merge)),
    {
        let mut is_ok = true;
        if self.threads < 1 {
            is_ok = false;
        }
        if self.random == Randomizer::Novl && self.no_merge {
            is_ok = false;
        }
        is_ok
    }
}

} // verus!
