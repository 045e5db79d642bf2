//! Permutation testing of genomic interval overlap.
//!
//! Two sets of intervals A and B are compared: the observed overlap count
//! between them is measured against the counts obtained from many randomized
//! versions of A drawn under a chromosome-length model with optional masked
//! regions.  The library holds the verified core: the interval index, the
//! genome coordinate model, the randomization strategies, the overlap
//! counters, and the integer parts of the statistics.

pub mod bedparse;
pub mod cli;
pub mod driver;
pub mod gapbreaks;
pub mod intervals;
pub mod loader;
pub mod overlappers;
pub mod randomizers;
pub mod stats;
