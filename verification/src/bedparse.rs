//! Validation of tabular interval records: ranges must be non-empty and
//! starts must not go backwards within a run of one chromosome.
use vstd::prelude::*;

verus! {

/// Why a record stream was rejected.
#[derive(Clone, Copy, PartialEq, Eq, Structural, Debug)]
pub enum BedErrorKind {
    /// A record with stop <= start.
    BadRange,
    /// A record whose start went backwards within its chromosome run.
    Unordered,
}

/// A rejected record stream: the first offending record and why.
#[derive(Clone, Copy, PartialEq, Eq, Structural, Debug)]
pub struct BedError {
    pub line: usize,
    pub kind: BedErrorKind,
}

/// Index of the first offending record, scanning with the given previous
/// chromosome and start, or `None` when every record is in order.  A record
/// offends when its stop is not past its start, or when its start lies
/// before the previous start of the same (immediately preceding) chromosome.
pub open spec fn first_bad(pc: Seq<char>, ps: u64, recs: Seq<(String, u64, u64)>) -> Option<int>
    decreases recs.len(),
{
    if recs.len() == 0 {
        None
    } else {
        let c = recs[0].0;
        let s = recs[0].1;
        let e = recs[0].2;
        let base: u64 = if c@ == pc {
            ps
        } else {
            0
        };
        if e <= s || s < base {
            Some(0int)
        } else {
            match first_bad(c@, s, recs.drop_first()) {
                None => None,
                Some(i) => Some(i + 1),
            }
        }
    }
}

/// Scans tab-separated interval records, ensuring each entry has start
/// before stop and that entries of one chromosome arrive sorted by start.
/// The reader that splits lines and parses the integers stands outside; the
/// parser holds the scan state between calls.
pub struct BedParser {
    prev_chrom: String,
    prev_start: u64,
}

impl BedParser {
    /// The chromosome of the last accepted record.
    pub closed spec fn prev_chrom_spec(&self) -> Seq<char> {
        self.prev_chrom@
    }

    /// The start of the last accepted record.
    pub closed spec fn prev_start_spec(&self) -> u64 {
        self.prev_start
    }

    /// A fresh parser: no record seen yet.
    pub fn new() -> (r: Self)
        ensures
            r.prev_chrom_spec() == Seq::<char>::empty(),
            r.prev_start_spec() == 0,
    {
        Self { prev_chrom: String::new(), prev_start: 0 }
    }

    /// Checks the records in order and hands them back unchanged; the first
    /// offending record, if any, is reported instead.
    pub fn parse(&mut self, records: Vec<(String, u64, u64)>) -> (r: Result<
        Vec<(String, u64, u64)>,
        BedError,
    >)
        ensures
            r is Ok <==> first_bad(
                old(self).prev_chrom_spec(),
                old(self).prev_start_spec(),
                records@,
            ) is None,
            r is Ok ==> r.unwrap()@ == records@,
            r is Err ==> ({
                let bad = first_bad(
                    old(self).prev_chrom_spec(),
                    old(self).prev_start_spec(),
                    records@,
                );
                &&& bad is Some
                &&& r.unwrap_err().line == bad.unwrap()
                &&& r.unwrap_err().kind == (if records@[bad.unwrap()].2 <= records@[bad.unwrap()].1 {
                    BedErrorKind::BadRange
                } else {
                    BedErrorKind::Unordered
                })
            }),
    {
        let ghost pc0 = self.prev_chrom@;
        let ghost ps0 = self.prev_start;
        let ghost recs = records@;
        let n = records.len();
        let mut i: usize = 0;
        proof {
            assert(recs.skip(0) =~= recs);
        }
        while i < n
            invariant
                n == recs.len(),
                recs == records@,
                pc0 == old(self).prev_chrom_spec(),
                ps0 == old(self).prev_start_spec(),
                0 <= i <= n,
                first_bad(pc0, ps0, recs) == opt_shift(
                    first_bad(self.prev_chrom@, self.prev_start, recs.skip(i as int)),
                    i as int,
                ),
            decreases n - i,
        {
            let rec = &records[i];
            let same = rec.0 == self.prev_chrom;
            let base: u64 = if same {
                self.prev_start
            } else {
                0
            };
            proof {
                assert(recs.skip(i as int)[0] == recs[i as int]);
            }
            if rec.2 <= rec.1 {
                proof {
                    assert(first_bad(self.prev_chrom@, self.prev_start, recs.skip(i as int))
                        == Some(0int));
                }
                return Err(BedError { line: i, kind: BedErrorKind::BadRange });
            }
            if rec.1 < base {
                proof {
                    assert(first_bad(self.prev_chrom@, self.prev_start, recs.skip(i as int))
                        == Some(0int));
                }
                return Err(BedError { line: i, kind: BedErrorKind::Unordered });
            }
            self.prev_chrom = rec.0.clone();
            self.prev_start = rec.1;
            proof {
                assert(self.prev_chrom@ == recs[i as int].0@);
                assert(recs.skip(i as int).drop_first() =~= recs.skip(i as int + 1));
            }
            i = i + 1;
        }
        proof {
            assert(recs.skip(n as int) =~= Seq::<(String, u64, u64)>::empty());
        }
        Ok(records)
    }
}

/// Shifts an optional index by `k`.
pub open spec fn opt_shift(o: Option<int>, k: int) -> Option<int> {
    match o {
        None => None,
        Some(i) => Some(i + k),
    }
}

} // verus!
