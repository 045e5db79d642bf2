//! The genome coordinate model: chromosome spans laid end to end in one
//! linear address space, mask subtraction, record loading and the gap
//! budget of the non-overlapping randomizer.
use vstd::prelude::*;

verus! {

use crate::intervals::{
    IntervalIndex,
    Iv,
    covers,
    cover,
    cov_in,
    iv_le,
    iv_len,
    iv_hits,
    ivs_separated,
    ivs_valid,
    lemma_covers_push,
    lemma_covers_multiset,
    hits_pred,
    sum_lens,
};

/// Coordinates are kept below this bound so that a shifted coordinate
/// (at most coordinate + span) still fits comfortably in a u64.
pub const MAX_COORD: u64 = 0x4000_0000_0000_0000;

/// Why the genome model could not be built.
#[derive(Clone, Copy, PartialEq, Eq, Structural, Debug)]
pub enum GenomeError {
    /// A chromosome's masked bases exceed its declared length.
    MaskExceedsChromosome,
    /// An interval set covers more of a scope than the scope holds.
    BudgetExceedsSpan,
}

/// Some entry of `names` reads `nm`.
pub open spec fn has_name(names: Seq<String>, nm: Seq<char>) -> bool {
    exists|j: int| 0 <= j < names.len() && (#[trigger] names[j])@ == nm
}

/// A record `(chromosome, start, stop)` mentions `name`.
pub open spec fn rec_has_chrom(recs: Seq<(String, u64, u64)>, name: Seq<char>) -> bool {
    exists|k: int| 0 <= k < recs.len() && (#[trigger] recs[k]).0@ == name
}

/// Some record of chromosome `name` covers the point `p`.
pub open spec fn records_cover(recs: Seq<(String, u64, u64)>, name: Seq<char>, p: int) -> bool {
    exists|k: int|
        0 <= k < recs.len() && (#[trigger] recs[k]).0@ == name && recs[k].1 <= p < recs[k].2
}

/// Masked regions, one merged interval index per chromosome, in
/// chromosome-relative coordinates.
pub struct MaskShift {
    entries: Vec<(String, IntervalIndex)>,
}

/// First value bound to `name` in an association sequence of indexes.
pub open spec fn lookup_mask(s: Seq<(String, IntervalIndex)>, name: Seq<char>) -> Option<
    IntervalIndex,
>
    decreases s.len(),
{
    if s.len() == 0 {
        None
    } else if s[0].0@ == name {
        Some(s[0].1)
    } else {
        lookup_mask(s.drop_first(), name)
    }
}

/// A name bound at position `k` of a duplicate-free association sequence is
/// found there by `lookup_mask`.
proof fn lemma_lookup_mask_at(s: Seq<(String, IntervalIndex)>, k: int)
    requires
        0 <= k < s.len(),
        forall|x: int, y: int|
            0 <= x < y < s.len() ==> (#[trigger] s[x]).0@ != (#[trigger] s[y]).0@,
    ensures
        lookup_mask(s, s[k].0@) == Some(s[k].1),
    decreases s.len(),
{
    if k > 0 {
        assert(s[0].0@ != s[k].0@);
        assert forall|x: int, y: int|
            0 <= x < y < s.drop_first().len() implies (#[trigger] s.drop_first()[x]).0@ != (
        #[trigger] s.drop_first()[y]).0@ by {
            assert(s[x + 1].0@ != s[y + 1].0@);
        }
        lemma_lookup_mask_at(s.drop_first(), k - 1);
        assert(s.drop_first()[k - 1] == s[k]);
    }
}

/// A name found by `lookup_mask` is bound at some position.
proof fn lemma_lookup_mask_some(s: Seq<(String, IntervalIndex)>, name: Seq<char>)
    requires
        lookup_mask(s, name) is Some,
    ensures
        exists|k: int|
            0 <= k < s.len() && (#[trigger] s[k]).0@ == name && s[k].1 == lookup_mask(
                s,
                name,
            ).unwrap(),
    decreases s.len(),
{
    if s.len() > 0 {
        if s[0].0@ == name {
            assert(s[0].0@ == name && s[0].1 == lookup_mask(s, name).unwrap());
        } else {
            lemma_lookup_mask_some(s.drop_first(), name);
            let k = choose|k: int|
                0 <= k < s.drop_first().len() && (#[trigger] s.drop_first()[k]).0@ == name
                    && s.drop_first()[k].1 == lookup_mask(s.drop_first(), name).unwrap();
            assert((s[k + 1]).0@ == name && s[k + 1].1 == lookup_mask(s, name).unwrap());
        }
    }
}

impl MaskShift {
    /// The association list behind the mask: names and merged indexes.
    pub closed spec fn entries_spec(&self) -> Seq<(String, IntervalIndex)> {
        self.entries@
    }

    /// The merged mask index of a chromosome, if it has masked regions.
    pub open spec fn spec_get(&self, name: Seq<char>) -> Option<IntervalIndex> {
        lookup_mask(self.entries_spec(), name)
    }

    /// Every per-chromosome index is sorted, separated and holds valid
    /// ranges, and no chromosome appears twice.
    pub open spec fn wf(&self) -> bool {
        &&& forall|k: int|
            0 <= k < self.entries_spec().len() ==> {
                &&& (#[trigger] self.entries_spec()[k]).1.wf()
                &&& ivs_separated(self.entries_spec()[k].1@)
                &&& ivs_valid(self.entries_spec()[k].1@)
            }
        &&& forall|x: int, y: int|
            0 <= x < y < self.entries_spec().len() ==> (#[trigger] self.entries_spec()[x]).0@ != (
            #[trigger] self.entries_spec()[y]).0@
    }

    /// The chromosome's mask index, if any.
    pub fn get(&self, name: &String) -> (r: Option<&IntervalIndex>)
        ensures
            r is Some <==> self.spec_get(name@) is Some,
            r is Some ==> *r.unwrap() == self.spec_get(name@).unwrap(),
    {
        let ghost s = self.entries@;
        let n = self.entries.len();
        let mut i: usize = 0;
        proof {
            assert(s.skip(0) =~= s);
        }
        while i < n
            invariant
                s == self.entries@,
                n == s.len(),
                0 <= i <= n,
                lookup_mask(s, name@) == lookup_mask(s.skip(i as int), name@),
            decreases n - i,
        {
            let e = &self.entries[i];
            proof {
                assert(s.skip(i as int)[0] == s[i as int]);
                assert(s.skip(i as int).drop_first() =~= s.skip(i as int + 1));
            }
            if e.0 == *name {
                return Some(&e.1);
            }
            i = i + 1;
        }
        proof {
            assert(s.skip(n as int) =~= Seq::<(String, IntervalIndex)>::empty());
        }
        None
    }
}

/// Builds the mask: groups records by chromosome, indexes each group and
/// merges its overlaps.  A chromosome's resulting index covers exactly the
/// points its records cover.
pub fn read_mask(records: Vec<(String, u64, u64)>) -> (m: MaskShift)
    requires
        forall|k: int| 0 <= k < records@.len() ==> (#[trigger] records@[k]).1 <= records@[k].2,
    ensures
        m.wf(),
        forall|name: Seq<char>| #[trigger] m.spec_get(name) is Some <==> rec_has_chrom(
            records@,
            name,
        ),
        forall|name: Seq<char>, p: int|
            m.spec_get(name) is Some ==> (#[trigger] covers(m.spec_get(name).unwrap()@, p)
                <==> records_cover(records@, name, p)),
{
    let ghost recs = records@;
    let n = records.len();

    // Chromosome names in first-appearance order, without duplicates.
    let mut names: Vec<String> = Vec::new();
    let mut i: usize = 0;
    while i < n
        invariant
            recs == records@,
            n == recs.len(),
            0 <= i <= n,
            forall|x: int, y: int|
                0 <= x < y < names@.len() ==> (#[trigger] names@[x])@ != (#[trigger] names@[y])@,
            forall|j: int|
                0 <= j < names@.len() ==> rec_has_chrom(recs.take(i as int), (#[trigger] names@[j])@),
            forall|k: int| 0 <= k < i ==> has_name(names@, (#[trigger] recs[k]).0@),
        decreases n - i,
    {
        let rec = &records[i];
        let ghost names_old = names@;
        let mut seen = false;
        let mut j: usize = 0;
        let m = names.len();
        while j < m
            invariant
                m == names@.len(),
                0 <= j <= m,
                seen <==> exists|x: int| 0 <= x < j && (#[trigger] names@[x])@ == rec.0@,
            decreases m - j,
        {
            if names[j] == rec.0 {
                seen = true;
            }
            j = j + 1;
        }
        if !seen {
            names.push(rec.0.clone());
        }
        proof {
            assert(recs.take(i as int + 1)[i as int] == recs[i as int]);
            assert forall|j2: int|
                0 <= j2 < names@.len() implies rec_has_chrom(
                recs.take(i as int + 1),
                (#[trigger] names@[j2])@,
            ) by {
                if rec_has_chrom(recs.take(i as int), names@[j2]@) {
                    let w = choose|k: int|
                        0 <= k < recs.take(i as int).len() && (#[trigger] recs.take(
                            i as int,
                        )[k]).0@ == names@[j2]@;
                    assert((recs.take(i as int + 1)[w]).0@ == names@[j2]@);
                } else {
                    assert((recs.take(i as int + 1)[i as int]).0@ == names@[j2]@);
                }
            }
            assert forall|k: int|
                0 <= k < i as int + 1 implies has_name(names@, (#[trigger] recs[k]).0@) by {
                if k < i as int {
                    assert(has_name(names_old, recs[k].0@));
                    let w = choose|w: int|
                        0 <= w < names_old.len() && (#[trigger] names_old[w])@ == recs[k].0@;
                    assert((names@[w])@ == recs[k].0@);
                } else if seen {
                    let x = choose|x: int|
                        0 <= x < names_old.len() && (#[trigger] names_old[x])@ == rec.0@;
                    assert((names@[x])@ == recs[k].0@);
                } else {
                    assert((names@[names@.len() - 1])@ == recs[k].0@);
                }
            }
        }
        i = i + 1;
    }
    proof {
        assert(recs.take(n as int) == recs);
    }

    // For each name, gather its records and build a merged index.
    let mut entries: Vec<(String, IntervalIndex)> = Vec::new();
    let mut t: usize = 0;
    let m = names.len();
    while t < m
        invariant
            recs == records@,
            n == recs.len(),
            forall|k: int| 0 <= k < recs.len() ==> (#[trigger] recs[k]).1 <= recs[k].2,
            m == names@.len(),
            0 <= t <= m,
            forall|x: int, y: int|
                0 <= x < y < m ==> (#[trigger] names@[x])@ != (#[trigger] names@[y])@,
            forall|j: int| 0 <= j < m ==> rec_has_chrom(recs, (#[trigger] names@[j])@),
            forall|k: int| 0 <= k < n ==> has_name(names@, (#[trigger] recs[k]).0@),
            entries@.len() == t,
            forall|j: int| 0 <= j < t ==> (#[trigger] entries@[j]).0@ == names@[j]@,
            forall|j: int|
                0 <= j < t ==> {
                    &&& (#[trigger] entries@[j]).1.wf()
                    &&& ivs_separated(entries@[j].1@)
                    &&& ivs_valid(entries@[j].1@)
                },
            forall|j: int, p: int|
                0 <= j < t ==> (#[trigger] covers(entries@[j].1@, p) <==> records_cover(
                    recs,
                    names@[j]@,
                    p,
                )),
        decreases m - t,
    {
        let name = &names[t];
        let mut group: Vec<Iv> = Vec::new();
        let mut k: usize = 0;
        while k < n
            invariant
                recs == records@,
                n == recs.len(),
                forall|x: int| 0 <= x < recs.len() ==> (#[trigger] recs[x]).1 <= recs[x].2,
                0 <= k <= n,
                name@ == names@[t as int]@,
                ivs_valid(group@),
                forall|p: int| covers(group@, p) <==> records_cover(recs.take(k as int), name@, p),
            decreases n - k,
        {
            let rec = &records[k];
            let ghost gprev = group@;
            if rec.0 == *name {
                group.push(Iv { start: rec.1, stop: rec.2, val: 0 });
            }
            proof {
                assert(recs.take(k as int + 1)[k as int] == recs[k as int]);
                assert forall|p: int| covers(group@, p) <==> records_cover(
                    recs.take(k as int + 1),
                    name@,
                    p,
                ) by {
                    assert(covers(gprev, p) <==> records_cover(recs.take(k as int), name@, p));
                    if rec.0@ == name@ {
                        lemma_covers_push(gprev, Iv { start: rec.1, stop: rec.2, val: 0 }, p);
                    }
                    if records_cover(recs.take(k as int + 1), name@, p) && !records_cover(
                        recs.take(k as int),
                        name@,
                        p,
                    ) {
                        let w = choose|w: int|
                            0 <= w < recs.take(k as int + 1).len() && (#[trigger] recs.take(
                                k as int + 1,
                            )[w]).0@ == name@ && recs.take(k as int + 1)[w].1 <= p < recs.take(
                                k as int + 1,
                            )[w].2;
                        if w < k as int {
                            assert((recs.take(k as int)[w]).0@ == name@ && recs.take(
                                k as int,
                            )[w].1 <= p < recs.take(k as int)[w].2);
                        }
                    }
                    if records_cover(recs.take(k as int), name@, p) {
                        let w = choose|w: int|
                            0 <= w < recs.take(k as int).len() && (#[trigger] recs.take(
                                k as int,
                            )[w]).0@ == name@ && recs.take(k as int)[w].1 <= p < recs.take(
                                k as int,
                            )[w].2;
                        assert((recs.take(k as int + 1)[w]).0@ == name@ && recs.take(
                            k as int + 1,
                        )[w].1 <= p < recs.take(k as int + 1)[w].2);
                    }
                }
            }
            k = k + 1;
        }
        proof {
            assert(recs.take(n as int) == recs);
        }
        let ghost gseq = group@;
        let mut idx = IntervalIndex::new(group);
        proof {
            crate::intervals::lemma_valid_multiset(gseq, idx@);
        }
        let ghost before_merge = idx@;
        idx.merge_overlaps();
        proof {
            assert forall|p: int| covers(idx@, p) <==> records_cover(recs, name@, p) by {
                lemma_covers_multiset(before_merge, gseq, p);
                assert(covers(gseq, p) <==> records_cover(recs, name@, p));
            }
        }
        entries.push((name.clone(), idx));
        t = t + 1;
    }

    let m_out = MaskShift { entries };
    proof {
        assert forall|name: Seq<char>| #[trigger] m_out.spec_get(name) is Some <==> rec_has_chrom(
            recs,
            name,
        ) by {
            if m_out.spec_get(name) is Some {
                lemma_lookup_mask_some(m_out.entries_spec(), name);
            }
            if rec_has_chrom(recs, name) {
                let k = choose|k: int| 0 <= k < recs.len() && (#[trigger] recs[k]).0@ == name;
                assert(has_name(names@, recs[k].0@));
                let j = choose|j: int|
                    0 <= j < names@.len() && (#[trigger] names@[j])@ == recs[k].0@;
                lemma_lookup_mask_at(m_out.entries_spec(), j);
            }
        }
        assert forall|name: Seq<char>, p: int|
            m_out.spec_get(name) is Some implies (#[trigger] covers(
            m_out.spec_get(name).unwrap()@,
            p,
        ) <==> records_cover(recs, name, p)) by {
            lemma_lookup_mask_some(m_out.entries_spec(), name);
            let k = choose|k: int|
                0 <= k < m_out.entries_spec().len() && (#[trigger] m_out.entries_spec()[k]).0@
                    == name && m_out.entries_spec()[k].1 == m_out.spec_get(name).unwrap();
        }
    }
    m_out
}

/// First value bound to `name` in a name-to-offset association sequence.
pub open spec fn lookup_shift(s: Seq<(String, u64)>, name: Seq<char>) -> Option<u64>
    decreases s.len(),
{
    if s.len() == 0 {
        None
    } else if s[0].0@ == name {
        Some(s[0].1)
    } else {
        lookup_shift(s.drop_first(), name)
    }
}

/// A name bound at position `k` of a duplicate-free association sequence is
/// found there by `lookup_shift`.
pub proof fn lemma_lookup_shift_at(s: Seq<(String, u64)>, k: int)
    requires
        0 <= k < s.len(),
        forall|x: int, y: int|
            0 <= x < y < s.len() ==> (#[trigger] s[x]).0@ != (#[trigger] s[y]).0@,
    ensures
        lookup_shift(s, s[k].0@) == Some(s[k].1),
    decreases s.len(),
{
    if k > 0 {
        assert(s[0].0@ != s[k].0@);
        assert forall|x: int, y: int|
            0 <= x < y < s.drop_first().len() implies (#[trigger] s.drop_first()[x]).0@ != (
        #[trigger] s.drop_first()[y]).0@ by {
            assert(s[x + 1].0@ != s[y + 1].0@);
        }
        lemma_lookup_shift_at(s.drop_first(), k - 1);
        assert(s.drop_first()[k - 1] == s[k]);
    }
}

/// A name found by `lookup_shift` is bound at some position.
pub proof fn lemma_lookup_shift_some(s: Seq<(String, u64)>, name: Seq<char>)
    requires
        lookup_shift(s, name) is Some,
    ensures
        exists|k: int|
            0 <= k < s.len() && (#[trigger] s[k]).0@ == name && s[k].1 == lookup_shift(
                s,
                name,
            ).unwrap(),
    decreases s.len(),
{
    if s.len() > 0 {
        if s[0].0@ == name {
            assert(s[0].0@ == name && s[0].1 == lookup_shift(s, name).unwrap());
        } else {
            lemma_lookup_shift_some(s.drop_first(), name);
            let k = choose|k: int|
                0 <= k < s.drop_first().len() && (#[trigger] s.drop_first()[k]).0@ == name
                    && s.drop_first()[k].1 == lookup_shift(s.drop_first(), name).unwrap();
            assert((s[k + 1]).0@ == name && s[k + 1].1 == lookup_shift(s, name).unwrap());
        }
    }
}

/// Summed declared lengths of genome records.
pub open spec fn sum_sizes(recs: Seq<(String, u64)>) -> int
    decreases recs.len(),
{
    if recs.len() == 0 {
        0
    } else {
        sum_sizes(recs.drop_last()) + recs.last().1
    }
}

/// A summed length is never negative.
pub proof fn lemma_sum_sizes_nonneg(recs: Seq<(String, u64)>)
    ensures
        0 <= sum_sizes(recs),
    decreases recs.len(),
{
    if recs.len() > 0 {
        lemma_sum_sizes_nonneg(recs.drop_last());
    }
}

/// A prefix sums to no more than the whole.
pub proof fn lemma_sum_sizes_take(recs: Seq<(String, u64)>, t: int)
    requires
        0 <= t <= recs.len(),
    ensures
        0 <= sum_sizes(recs.take(t)) <= sum_sizes(recs),
    decreases recs.len() - t,
{
    lemma_sum_sizes_nonneg(recs.take(t));
    if t == recs.len() {
        assert(recs.take(t) =~= recs);
    } else {
        lemma_sum_sizes_take(recs, t + 1);
        assert(recs.take(t + 1).drop_last() =~= recs.take(t));
    }
}

/// Masked bases of the chromosome called `name`: the cover of its mask
/// index, or 0 where there is no mask for it.
pub open spec fn chrom_mask_cov(mask: Option<MaskShift>, name: Seq<char>) -> int {
    match mask {
        None => 0,
        Some(m) => match m.spec_get(name) {
            None => 0,
            Some(idx) => cover(idx@),
        },
    }
}

/// The genome model: chromosome spans laid end to end in linear coordinates.
/// Each span's `val` carries the chromosome's post-mask length; `shift` maps
/// a chromosome name to its span's linear start; `span` is the total size;
/// `gap_budget` optionally holds per-scope uncovered-base counts for the
/// non-overlapping randomizer.
#[derive(Debug)]
pub struct GenomeShift {
    /// Chromosome spans in concatenated coordinates, in load order.
    pub chrom: IntervalIndex,
    /// Chromosome name to linear offset, in load order.
    pub shift: Vec<(String, u64)>,
    /// Total span of the genome after mask subtraction.
    pub span: u64,
    /// Per-scope uncovered-base budgets, once `make_gap_budget` ran.
    pub gap_budget: Option<Vec<u64>>,
}

impl GenomeShift {
    /// The name-to-offset association behind `shift`.
    pub open spec fn shift_spec(&self) -> Seq<(String, u64)> {
        self.shift@
    }

    /// The stored per-scope gap budget, if one was made.
    pub open spec fn budget_spec(&self) -> Option<Seq<u64>> {
        match self.gap_budget {
            Some(v) => Some(v@),
            None => None,
        }
    }

    /// Linear offset of the chromosome called `name`.
    pub open spec fn shift_of(&self, name: Seq<char>) -> Option<u64> {
        lookup_shift(self.shift_spec(), name)
    }

    /// Chromosome spans are contiguous from 0, carry their width in `val`,
    /// end at `span`, and the name table points at their starts.
    pub open spec fn wf(&self) -> bool {
        &&& self.chrom.wf()
        &&& ivs_valid(self.chrom@)
        &&& self.shift_spec().len() == self.chrom@.len()
        &&& forall|k: int|
            0 <= k < self.chrom@.len() ==> (#[trigger] self.chrom@[k]).val == iv_len(self.chrom@[k])
        &&& forall|k: int|
            0 <= k < self.chrom@.len() ==> (#[trigger] self.chrom@[k]).start == (if k == 0 {
                0int
            } else {
                self.chrom@[k - 1].stop as int
            })
        &&& self.span == (if self.chrom@.len() == 0 {
            0int
        } else {
            self.chrom@.last().stop as int
        })
        &&& self.span <= MAX_COORD
        &&& forall|k: int|
            0 <= k < self.shift_spec().len() ==> (#[trigger] self.shift_spec()[k]).1
                == self.chrom@[k].start
        &&& forall|x: int, y: int|
            0 <= x < y < self.shift_spec().len() ==> (#[trigger] self.shift_spec()[x]).0@ != (
            #[trigger] self.shift_spec()[y]).0@
    }

    /// Every span ends at or before the total span.
    pub proof fn lemma_stop_le_span(&self, k: int)
        requires
            self.wf(),
            0 <= k < self.chrom@.len(),
        ensures
            self.chrom@[k].stop <= self.span,
            self.chrom@[k].start <= self.chrom@[k].stop,
        decreases self.chrom@.len() - k,
    {
        if k == self.chrom@.len() - 1 {
        } else {
            self.lemma_stop_le_span(k + 1);
            assert(self.chrom@[k + 1].start == self.chrom@[k].stop as int);
        }
    }

    /// An earlier chromosome span ends at or before a later one begins.
    pub proof fn lemma_scope_order(&self, j: int, k: int)
        requires
            self.wf(),
            0 <= j < k < self.chrom@.len(),
        ensures
            self.chrom@[j].stop <= self.chrom@[k].start,
        decreases k - j,
    {
        if k == j + 1 {
            assert(self.chrom@[k].start == self.chrom@[j].stop as int);
        } else {
            self.lemma_scope_order(j, k - 1);
            self.lemma_stop_le_span(k - 1);
            assert(self.chrom@[k].start == self.chrom@[k - 1].stop as int);
        }
    }

    /// A chromosome's linear offset never exceeds the total span.
    pub proof fn lemma_shift_le_span(&self, name: Seq<char>)
        requires
            self.wf(),
            self.shift_of(name) is Some,
        ensures
            self.shift_of(name).unwrap() <= self.span,
    {
        lemma_lookup_shift_some(self.shift_spec(), name);
        let k = choose|k: int|
            0 <= k < self.shift_spec().len() && (#[trigger] self.shift_spec()[k]).0@ == name
                && self.shift_spec()[k].1 == self.shift_of(name).unwrap();
        self.lemma_stop_le_span(k);
    }

    /// Linear offset of the chromosome, if the genome knows it.
    pub fn get_shift(&self, name: &String) -> (r: Option<u64>)
        ensures
            r == self.shift_of(name@),
    {
        let ghost s = self.shift@;
        let n = self.shift.len();
        let mut i: usize = 0;
        proof {
            assert(s.skip(0) =~= s);
        }
        while i < n
            invariant
                s == self.shift@,
                n == s.len(),
                0 <= i <= n,
                lookup_shift(s, name@) == lookup_shift(s.skip(i as int), name@),
            decreases n - i,
        {
            let e = &self.shift[i];
            proof {
                assert(s.skip(i as int)[0] == s[i as int]);
                assert(s.skip(i as int).drop_first() =~= s.skip(i as int + 1));
            }
            if e.0 == *name {
                return Some(e.1);
            }
            i = i + 1;
        }
        proof {
            assert(s.skip(n as int) =~= Seq::<(String, u64)>::empty());
        }
        None
    }

    /// Whether a gap budget has been made.
    pub fn has_budget(&self) -> (r: bool)
        ensures
            r == (self.budget_spec() is Some),
    {
        match &self.gap_budget {
            Some(_) => true,
            None => false,
        }
    }

    /// The stored budget for scope `k`, if one is there.
    pub fn budget_value(&self, k: usize) -> (r: Option<u64>)
        ensures
            r is Some <==> (self.budget_spec() is Some && k < self.budget_spec().unwrap().len()),
            r is Some ==> r.unwrap() == self.budget_spec().unwrap()[k as int],
    {
        match &self.gap_budget {
            Some(v) => {
                if k < v.len() {
                    Some(v[k])
                } else {
                    None
                }
            },
            None => None,
        }
    }
}

/// Masked bases of the chromosome called `name`, as an executable count.
fn mask_cov_of(mask: &Option<MaskShift>, name: &String) -> (c: u64)
    requires
        mask matches Some(m) ==> m.wf(),
    ensures
        c == chrom_mask_cov(*mask, name@),
{
    match mask {
        Some(m) => {
            match m.get(name) {
                Some(idx) => {
                    proof {
                        lemma_lookup_mask_some(m.entries_spec(), name@);
                    }
                    idx.cov()
                },
                None => 0,
            }
        },
        None => 0,
    }
}

/// Builds the genome model from `(chromosome, length)` records in file
/// order, subtracting each chromosome's masked bases from its length.
/// Rejected when a chromosome's masked bases exceed its declared length.
#[verifier::rlimit(100)]
pub fn read_genome(records: Vec<(String, u64)>, mask: &Option<MaskShift>) -> (r: Result<
    GenomeShift,
    GenomeError,
>)
    requires
        forall|x: int, y: int|
            0 <= x < y < records@.len() ==> (#[trigger] records@[x]).0@ != (
            #[trigger] records@[y]).0@,
        sum_sizes(records@) <= MAX_COORD,
        mask matches Some(m) ==> m.wf(),
    ensures
        r is Err <==> exists|k: int|
            0 <= k < records@.len() && chrom_mask_cov(*mask, (#[trigger] records@[k]).0@)
                > records@[k].1,
        r is Ok ==> ({
            let g = r.unwrap();
            &&& g.wf()
            &&& g.chrom@.len() == records@.len()
            &&& g.budget_spec() is None
            &&& forall|k: int|
                0 <= k < records@.len() ==> (#[trigger] g.chrom@[k]).val == records@[k].1
                    - chrom_mask_cov(*mask, records@[k].0@)
            &&& forall|k: int|
                0 <= k < records@.len() ==> (#[trigger] g.shift_spec()[k]).0@ == records@[k].0@
            &&& forall|k: int|
                0 <= k < records@.len() ==> g.shift_of((#[trigger] records@[k]).0@) == Some(
                    g.chrom@[k].start,
                )
        }),
{
    let ghost recs = records@;
    let n = records.len();
    let mut shift_vec: Vec<(String, u64)> = Vec::new();
    let mut load: Vec<Iv> = Vec::new();
    let mut cur_start: u64 = 0;
    let mut k: usize = 0;
    while k < n
        invariant
            recs == records@,
            n == recs.len(),
            0 <= k <= n,
            sum_sizes(recs) <= MAX_COORD,
            mask matches Some(m) ==> m.wf(),
            forall|x: int, y: int|
                0 <= x < y < n ==> (#[trigger] recs[x]).0@ != (#[trigger] recs[y]).0@,
            shift_vec@.len() == k,
            load@.len() == k,
            forall|j: int| 0 <= j < k ==> (#[trigger] shift_vec@[j]).0@ == recs[j].0@,
            forall|j: int| 0 <= j < k ==> (#[trigger] shift_vec@[j]).1 == load@[j].start,
            forall|j: int|
                0 <= j < k ==> (#[trigger] load@[j]).val == recs[j].1 - chrom_mask_cov(
                    *mask,
                    recs[j].0@,
                ),
            forall|j: int|
                0 <= j < k ==> (#[trigger] load@[j]).stop == load@[j].start + load@[j].val,
            forall|j: int|
                0 <= j < k ==> (#[trigger] load@[j]).start == (if j == 0 {
                    0int
                } else {
                    load@[j - 1].stop as int
                }),
            cur_start == (if k == 0 {
                0int
            } else {
                load@[k - 1].stop as int
            }),
            cur_start <= sum_sizes(recs.take(k as int)),
            forall|j: int|
                0 <= j < k ==> chrom_mask_cov(*mask, (#[trigger] recs[j]).0@) <= recs[j].1,
        decreases n - k,
    {
        let rec = &records[k];
        let masked: u64 = mask_cov_of(mask, &rec.0);
        if masked > rec.1 {
            proof {
                assert(chrom_mask_cov(*mask, recs[k as int].0@) > recs[k as int].1);
            }
            return Err(GenomeError::MaskExceedsChromosome);
        }
        let size = rec.1 - masked;
        proof {
            lemma_sum_sizes_take(recs, k as int + 1);
            assert(recs.take(k as int + 1).drop_last() =~= recs.take(k as int));
            assert(recs.take(k as int + 1).last() == recs[k as int]);
        }
        shift_vec.push((rec.0.clone(), cur_start));
        load.push(Iv { start: cur_start, stop: cur_start + size, val: size });
        cur_start = cur_start + size;
        k = k + 1;
    }
    proof {
        assert(recs.take(n as int) == recs);
        assert forall|x: int, y: int| 0 <= x < y < load@.len() implies iv_le(
            load@[x],
            load@[y],
        ) by {
            lemma_load_sorted(load@, x, y);
        }
    }
    let chrom = IntervalIndex::from_sorted(load);
    let g = GenomeShift { chrom, shift: shift_vec, span: cur_start, gap_budget: None };
    proof {
        assert forall|k2: int| 0 <= k2 < recs.len() implies g.shift_of(
            (#[trigger] recs[k2]).0@,
        ) == Some(g.chrom@[k2].start) by {
            lemma_lookup_shift_at(g.shift_spec(), k2);
        }
    }
    Ok(g)
}

/// Contiguous spans with non-negative widths are ordered.
proof fn lemma_load_sorted(load: Seq<Iv>, x: int, y: int)
    requires
        0 <= x < y < load.len(),
        forall|j: int| 0 <= j < load.len() ==> (#[trigger] load[j]).stop >= load[j].start,
        forall|j: int|
            0 <= j < load.len() ==> (#[trigger] load[j]).start == (if j == 0 {
                0int
            } else {
                load[j - 1].stop as int
            }),
    ensures
        iv_le(load[x], load[y]),
    decreases y - x,
{
    if y == x + 1 {
        assert(load[y].start == load[x].stop as int);
    } else {
        lemma_load_sorted(load, x, y - 1);
        lemma_load_sorted(load, y - 1, y);
    }
}

/// The mask has a region intersecting the record's range.
pub open spec fn masked_out(rec: (String, u64, u64), mask: Option<MaskShift>) -> bool {
    match mask {
        None => false,
        Some(m) => match m.spec_get(rec.0@) {
            None => false,
            Some(idx) => exists|j: int|
                0 <= j < idx@.len() && iv_hits(#[trigger] idx@[j], rec.1 as int, rec.2 as int),
        },
    }
}

/// Masked bases of the record's chromosome that lie before its start.
pub open spec fn mask_before(rec: (String, u64, u64), mask: Option<MaskShift>) -> int {
    match mask {
        None => 0,
        Some(m) => match m.spec_get(rec.0@) {
            None => 0,
            Some(idx) => cov_in(idx@, 0, rec.1 as int),
        },
    }
}

/// A record is loaded when its chromosome is in the genome and no mask
/// region intersects it.
pub open spec fn rec_passes(rec: (String, u64, u64), g: GenomeShift, mask: Option<
    MaskShift,
>) -> bool {
    g.shift_of(rec.0@) is Some && !masked_out(rec, mask)
}

/// Predicate form of `rec_passes` for `Seq::filter`.
pub open spec fn passes_pred(g: GenomeShift, mask: Option<MaskShift>) -> spec_fn(
    (String, u64, u64),
) -> bool {
    |rec: (String, u64, u64)| rec_passes(rec, g, mask)
}

/// Where a passing record lands in linear coordinates: shifted right by its
/// chromosome's offset and left by the masked bases before its start.
pub open spec fn rec_shifted(rec: (String, u64, u64), g: GenomeShift, mask: Option<
    MaskShift,
>) -> Iv {
    let rs = g.shift_of(rec.0@).unwrap();
    let ls = mask_before(rec, mask);
    Iv { start: (rec.1 + rs - ls) as u64, stop: (rec.2 + rs - ls) as u64, val: 0 }
}

/// Mapping form of `rec_shifted` for `Seq::map_values`.
pub open spec fn shifted_fn(g: GenomeShift, mask: Option<MaskShift>) -> spec_fn(
    (String, u64, u64),
) -> Iv {
    |rec: (String, u64, u64)| rec_shifted(rec, g, mask)
}

/// What loading a record sequence produces, before index construction:
/// the passing records, in order, at their shifted positions.
pub open spec fn load_spec(recs: Seq<(String, u64, u64)>, g: GenomeShift, mask: Option<
    MaskShift,
>) -> Seq<Iv> {
    recs.filter(passes_pred(g, mask)).map_values(shifted_fn(g, mask))
}

/// Loads interval records into an index in post-mask linear coordinates:
/// the index holds exactly the passing records' shifted intervals.  Records
/// of chromosomes the genome does not know, and records intersecting a mask
/// region, are dropped.
#[verifier::rlimit(80)]
pub fn read_bed(records: Vec<(String, u64, u64)>, genome: &GenomeShift, mask: &Option<
    MaskShift,
>) -> (r: IntervalIndex)
    requires
        genome.wf(),
        mask matches Some(m) ==> m.wf(),
        forall|k: int|
            0 <= k < records@.len() ==> (#[trigger] records@[k]).1 <= records@[k].2 <= MAX_COORD,
    ensures
        r.wf(),
        r@.to_multiset() == load_spec(records@, *genome, *mask).to_multiset(),
        r@.len() == load_spec(records@, *genome, *mask).len(),
{
    broadcast use vstd::prelude::Seq::lemma_take_succ_push;
    broadcast use vstd::prelude::Seq::lemma_take_len;
    broadcast use vstd::prelude::Seq::lemma_filter_push;

    let ghost recs = records@;
    let ghost pred = passes_pred(*genome, *mask);
    let ghost f = shifted_fn(*genome, *mask);
    let n = records.len();
    let mut out: Vec<Iv> = Vec::new();
    let mut k: usize = 0;
    proof {
        assert(recs.take(0).filter(pred).map_values(f) =~= out@);
    }
    while k < n
        invariant
            recs == records@,
            n == recs.len(),
            0 <= k <= n,
            genome.wf(),
            mask matches Some(m) ==> m.wf(),
            forall|j: int|
                0 <= j < recs.len() ==> (#[trigger] recs[j]).1 <= recs[j].2 <= MAX_COORD,
            pred == passes_pred(*genome, *mask),
            f == shifted_fn(*genome, *mask),
            out@ == recs.take(k as int).filter(pred).map_values(f),
        decreases n - k,
    {
        let rec = &records[k];
        let ghost prev = out@;
        let shift_opt = genome.get_shift(&rec.0);
        match shift_opt {
            Some(rs) => {
                let mut skip = false;
                let mut l_shift: u64 = 0;
                match mask {
                    Some(m) => {
                        match m.get(&rec.0) {
                            Some(idx) => {
                                proof {
                                    lemma_lookup_mask_some(m.entries_spec(), rec.0@);
                                }
                                let hits = idx.find(rec.1, rec.2);
                                if hits.len() > 0 {
                                    skip = true;
                                    proof {
                                        crate::overlappers::lemma_filter_count_hits(
                                            idx@,
                                            Iv { start: rec.1, stop: rec.2, val: 0 },
                                        );
                                        crate::overlappers::lemma_count_hits_pos(
                                            idx@,
                                            Iv { start: rec.1, stop: rec.2, val: 0 },
                                        );
                                        let w = choose|j: int|
                                            0 <= j < idx@.len() && crate::intervals::ivs_overlap(
                                                #[trigger] idx@[j],
                                                Iv { start: rec.1, stop: rec.2, val: 0 },
                                            );
                                        assert(iv_hits(idx@[w], rec.1 as int, rec.2 as int));
                                        assert(masked_out(recs[k as int], *mask));
                                    }
                                } else {
                                    proof {
                                        crate::overlappers::lemma_filter_count_hits(
                                            idx@,
                                            Iv { start: rec.1, stop: rec.2, val: 0 },
                                        );
                                        crate::overlappers::lemma_count_hits_pos(
                                            idx@,
                                            Iv { start: rec.1, stop: rec.2, val: 0 },
                                        );
                                        assert forall|j: int|
                                            0 <= j < idx@.len() implies !iv_hits(
                                            #[trigger] idx@[j],
                                            rec.1 as int,
                                            rec.2 as int,
                                        ) by {
                                            assert(!crate::overlappers::has_hit(
                                                idx@,
                                                Iv { start: rec.1, stop: rec.2, val: 0 },
                                            ));
                                        }
                                        assert(!masked_out(recs[k as int], *mask));
                                    }
                                    l_shift = idx.cov_range(0, rec.1);
                                    proof {
                                        crate::intervals::lemma_cov_in_bound(
                                            idx@,
                                            0,
                                            rec.1 as int,
                                        );
                                    }
                                }
                            },
                            None => {
                                proof {
                                    assert(!masked_out(recs[k as int], *mask));
                                }
                            },
                        }
                    },
                    None => {
                        proof {
                            assert(!masked_out(recs[k as int], *mask));
                        }
                    },
                }
                if !skip {
                    proof {
                        genome.lemma_shift_le_span(rec.0@);
                        assert(l_shift == mask_before(recs[k as int], *mask));
                        assert(l_shift <= rec.1);
                    }
                    let start = rec.1 + rs - l_shift;
                    let stop = rec.2 + rs - l_shift;
                    out.push(Iv { start, stop, val: 0 });
                    proof {
                        broadcast use vstd::prelude::Seq::lemma_filter_push;

                        assert(pred(recs[k as int]) == rec_passes(recs[k as int], *genome, *mask));
                        assert(pred(recs[k as int]));
                        assert(f(recs[k as int]) == Iv { start, stop, val: 0 });
                        assert(recs.take(k as int + 1) =~= recs.take(k as int).push(
                            recs[k as int],
                        ));
                        assert(recs.take(k as int).push(recs[k as int]).filter(pred) == recs.take(
                            k as int,
                        ).filter(pred).push(recs[k as int]));
                        assert(recs.take(k as int + 1).filter(pred).map_values(f) =~= prev.push(
                            Iv { start, stop, val: 0 },
                        ));
                    }
                } else {
                    proof {
                        broadcast use vstd::prelude::Seq::lemma_filter_push;

                        assert(!pred(recs[k as int]));
                        assert(recs.take(k as int + 1) =~= recs.take(k as int).push(
                            recs[k as int],
                        ));
                        assert(recs.take(k as int).push(recs[k as int]).filter(pred) == recs.take(
                            k as int,
                        ).filter(pred));
                        assert(recs.take(k as int + 1).filter(pred).map_values(f) =~= prev);
                    }
                }
            },
            None => {
                proof {
                    broadcast use vstd::prelude::Seq::lemma_filter_push;

                    assert(!pred(recs[k as int]));
                    assert(recs.take(k as int + 1) =~= recs.take(k as int).push(recs[k as int]));
                    assert(recs.take(k as int).push(recs[k as int]).filter(pred) == recs.take(
                        k as int,
                    ).filter(pred));
                    assert(recs.take(k as int + 1).filter(pred).map_values(f) =~= prev);
                }
            },
        }
        k = k + 1;
    }
    proof {
        assert(recs.take(n as int) == recs);
    }
    IntervalIndex::new(out)
}

/// Summed spans (stop minus start) of interval records.
pub open spec fn rec_span_sum(recs: Seq<(String, u64, u64)>) -> int
    decreases recs.len(),
{
    if recs.len() == 0 {
        0
    } else {
        rec_span_sum(recs.drop_last()) + (recs.last().2 - recs.last().1)
    }
}

/// A passing record's shifted interval keeps its width: the chromosome
/// offset and the mask shift cancel between start and stop.
pub proof fn lemma_shifted_width(rec: (String, u64, u64), g: GenomeShift, mask: Option<MaskShift>)
    requires
        g.wf(),
        mask matches Some(m) ==> m.wf(),
        rec.1 <= rec.2 <= MAX_COORD,
        rec_passes(rec, g, mask),
    ensures
        iv_len(rec_shifted(rec, g, mask)) == rec.2 - rec.1,
        0 <= mask_before(rec, mask) <= rec.1,
        g.shift_of(rec.0@).unwrap() <= g.span,
{
    g.lemma_shift_le_span(rec.0@);
    match mask {
        None => {},
        Some(m) => {
            match m.spec_get(rec.0@) {
                None => {},
                Some(idx) => {
                    lemma_lookup_mask_some(m.entries_spec(), rec.0@);
                    crate::intervals::lemma_cov_in_bound(idx@, 0, rec.1 as int);
                },
            }
        },
    }
}

/// Loading preserves total length: the summed widths of the loaded
/// intervals equal the summed spans of the records that pass the mask and
/// genome membership predicates.
pub proof fn lemma_load_total_length(recs: Seq<(String, u64, u64)>, g: GenomeShift, mask: Option<
    MaskShift,
>)
    requires
        g.wf(),
        mask matches Some(m) ==> m.wf(),
        forall|k: int|
            0 <= k < recs.len() ==> (#[trigger] recs[k]).1 <= recs[k].2 <= MAX_COORD,
    ensures
        sum_lens(load_spec(recs, g, mask)) == rec_span_sum(recs.filter(passes_pred(g, mask))),
    decreases recs.len(),
{
    reveal(Seq::filter);
    let pred = passes_pred(g, mask);
    let f = shifted_fn(g, mask);
    if recs.len() == 0 {
        assert(recs.filter(pred) =~= Seq::<(String, u64, u64)>::empty());
        assert(load_spec(recs, g, mask) =~= Seq::<Iv>::empty());
    } else {
        let dl = recs.drop_last();
        assert forall|k: int|
            0 <= k < dl.len() implies (#[trigger] dl[k]).1 <= dl[k].2 <= MAX_COORD by {
            assert(recs[k].1 <= recs[k].2 <= MAX_COORD);
        }
        lemma_load_total_length(dl, g, mask);
        let last = recs.last();
        assert(recs[recs.len() - 1].1 <= recs[recs.len() - 1].2 <= MAX_COORD);
        if pred(last) {
            lemma_shifted_width(last, g, mask);
            assert(recs.filter(pred) == dl.filter(pred).push(last));
            assert(recs.filter(pred).map_values(f) =~= dl.filter(pred).map_values(f).push(
                f(last),
            ));
            assert(recs.filter(pred).map_values(f).drop_last() =~= dl.filter(pred).map_values(f));
            assert(recs.filter(pred).drop_last() =~= dl.filter(pred));
            assert(f(last) == rec_shifted(last, g, mask));
        } else {
            assert(recs.filter(pred) == dl.filter(pred));
        }
    }
}

/// Loading preserves per-chromosome ordering: of two passing records of one
/// chromosome whose starts are in order, the shifted intervals' starts are
/// in the same order.
pub proof fn lemma_load_preserves_order(
    recs: Seq<(String, u64, u64)>,
    g: GenomeShift,
    mask: Option<MaskShift>,
    k: int,
    l: int,
)
    requires
        g.wf(),
        mask matches Some(m) ==> m.wf(),
        forall|x: int|
            0 <= x < recs.len() ==> (#[trigger] recs[x]).1 <= recs[x].2 <= MAX_COORD,
        0 <= k < recs.len(),
        0 <= l < recs.len(),
        recs[k].0@ == recs[l].0@,
        recs[k].1 <= recs[l].1,
        rec_passes(recs[k], g, mask),
        rec_passes(recs[l], g, mask),
    ensures
        rec_shifted(recs[k], g, mask).start <= rec_shifted(recs[l], g, mask).start,
{
    lemma_shifted_width(recs[k], g, mask);
    lemma_shifted_width(recs[l], g, mask);
    assert(g.shift_of(recs[k].0@) == g.shift_of(recs[l].0@));
    match mask {
        None => {},
        Some(m) => {
            match m.spec_get(recs[k].0@) {
                None => {},
                Some(idx) => {
                    lemma_lookup_mask_some(m.entries_spec(), recs[k].0@);
                    crate::intervals::lemma_cov_in_split(
                        idx@,
                        0,
                        recs[k].1 as int,
                        recs[l].1 as int,
                    );
                    crate::intervals::lemma_cov_in_bound(
                        idx@,
                        recs[k].1 as int,
                        recs[l].1 as int,
                    );
                },
            }
        },
    }
}

/// The budget equations the non-overlapping randomizer relies on: per scope,
/// the stored budget plus the summed widths of the input intervals that
/// intersect the scope equals the scope's width.  Genome-wide the input's
/// cover stands in for the sum.
pub open spec fn budget_matches(g: GenomeShift, a: Seq<Iv>, per_chrom: bool) -> bool {
    &&& g.budget_spec() is Some
    &&& (per_chrom ==> {
        &&& g.budget_spec().unwrap().len() == g.chrom@.len()
        &&& forall|k: int|
            0 <= k < g.chrom@.len() ==> (#[trigger] g.budget_spec().unwrap()[k]) + sum_lens(
                a.filter(
                    hits_pred(g.chrom@[k].start as int, g.chrom@[k].stop as int),
                ),
            ) == iv_len(g.chrom@[k])
    })
    &&& (!per_chrom ==> {
        &&& g.budget_spec().unwrap().len() == 1
        &&& g.budget_spec().unwrap()[0] + cover(a) == g.span
    })
}

impl GenomeShift {
    /// Counts the uncovered bases available to the non-overlapping
    /// randomizer: per chromosome, the chromosome width less the summed
    /// widths of the intervals intersecting it; genome-wide, the span less
    /// the input's cover.  Rejected when an input covers more than its scope
    /// holds.
    #[verifier::rlimit(80)]
    pub fn make_gap_budget(&mut self, intervals: &IntervalIndex, per_chrom: &bool) -> (r: Result<
        (),
        GenomeError,
    >)
        requires
            old(self).wf(),
            intervals.wf(),
            ivs_valid(intervals@),
        ensures
            final(self).chrom == old(self).chrom,
            final(self).shift_spec() == old(self).shift_spec(),
            final(self).span == old(self).span,
            final(self).wf(),
            r is Ok ==> budget_matches(*final(self), intervals@, *per_chrom),
            r is Err ==> *final(self) == *old(self),
            r is Err <==> (if *per_chrom {
                exists|k: int|
                    0 <= k < old(self).chrom@.len() && sum_lens(
                        intervals@.filter(
                            hits_pred(
                                (#[trigger] old(self).chrom@[k]).start as int,
                                old(self).chrom@[k].stop as int,
                            ),
                        ),
                    ) > iv_len(old(self).chrom@[k])
            } else {
                cover(intervals@) > old(self).span
            }),
    {
        if !*per_chrom {
            let c = intervals.cov();
            if c > self.span {
                return Err(GenomeError::BudgetExceedsSpan);
            }
            let mut v: Vec<u64> = Vec::new();
            v.push(self.span - c);
            self.gap_budget = Some(v);
            Ok(())
        } else {
            let ghost s = self.chrom@;
            let ghost a = intervals@;
            let n = self.chrom.len();
            let mut v: Vec<u64> = Vec::new();
            let mut k: usize = 0;
            while k < n
                invariant
                    *per_chrom == true,
                    *self == *old(self),
                    s == self.chrom@,
                    a == intervals@,
                    self.wf(),
                    intervals.wf(),
                    ivs_valid(a),
                    n == s.len(),
                    0 <= k <= n,
                    v@.len() == k,
                    forall|j: int|
                        0 <= j < k ==> (#[trigger] v@[j]) + sum_lens(
                            a.filter(hits_pred(s[j].start as int, s[j].stop as int)),
                        ) == iv_len(s[j]),
                decreases n - k,
            {
                let g = self.chrom.get(k);
                let found = intervals.find(g.start, g.stop);
                let ghost fseq = a.filter(hits_pred(g.start as int, g.stop as int));
                proof {
                    crate::intervals::lemma_filter_valid(
                        a,
                        hits_pred(g.start as int, g.stop as int),
                    );
                }
                let width = g.val;
                let m = found.len();
                let mut acc: u128 = 0;
                let mut j: usize = 0;
                proof {
                    assert(fseq.take(0) =~= Seq::<Iv>::empty());
                }
                while j < m
                    invariant
                        *per_chrom == true,
                        *self == *old(self),
                        self.wf(),
                        s == self.chrom@,
                        a == intervals@,
                        ivs_valid(fseq),
                        n == s.len(),
                        0 <= k < n,
                        fseq == found@,
                        fseq == a.filter(
                            hits_pred(s[k as int].start as int, s[k as int].stop as int),
                        ),
                        width == s[k as int].val,
                        width == iv_len(s[k as int]),
                        m == fseq.len(),
                        0 <= j <= m,
                        acc == sum_lens(fseq.take(j as int)),
                        acc <= width,
                    decreases m - j,
                {
                    let iv = found[j];
                    proof {
                        assert(fseq[j as int].start <= fseq[j as int].stop);
                        assert(fseq.take(j as int + 1).drop_last() =~= fseq.take(j as int));
                        crate::intervals::lemma_sum_lens_take_le(fseq, j as int + 1);
                    }
                    acc = acc + ((iv.stop - iv.start) as u128);
                    if acc > width as u128 {
                        proof {
                            assert(sum_lens(fseq) >= sum_lens(fseq.take(j as int + 1)));
                            assert(sum_lens(fseq) > iv_len(s[k as int]));
                            assert(old(self).chrom@ == s);
                            assert(sum_lens(
                                intervals@.filter(
                                    hits_pred(
                                        (old(self).chrom@[k as int]).start as int,
                                        old(self).chrom@[k as int].stop as int,
                                    ),
                                ),
                            ) > iv_len(old(self).chrom@[k as int]));
                        }
                        return Err(GenomeError::BudgetExceedsSpan);
                    }
                    j = j + 1;
                }
                proof {
                    assert(fseq.take(m as int) =~= fseq);
                }
                v.push(width - (acc as u64));
                k = k + 1;
            }
            self.gap_budget = Some(v);
            proof {
                assert forall|k2: int|
                    0 <= k2 < self.chrom@.len() implies sum_lens(
                    intervals@.filter(
                        hits_pred(
                            (#[trigger] self.chrom@[k2]).start as int,
                            self.chrom@[k2].stop as int,
                        ),
                    ),
                ) <= iv_len(self.chrom@[k2]) by {
                    assert((v@[k2]) + sum_lens(
                        a.filter(hits_pred(s[k2].start as int, s[k2].stop as int)),
                    ) == iv_len(s[k2]));
                }
            }
            Ok(())
        }
    }
}

} // verus!
