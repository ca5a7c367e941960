//! Per-marker observation of read sketches.
//!
//! A `HaplotypeObserver` consumes a pileup over one marker's genomic span.
//! For each reference position it records the raw depth, and at each
//! allele-defining SNP (ADS) it records, per covering read, the observed
//! allele into that read's sketch.  Partial sketches — reads that never had
//! an allele recorded at every ADS — are excluded from the tally and
//! reported as discarded.

use vstd::prelude::*;
use vstd::multiset::Multiset;

use crate::counter::{count_in, has_key, ReadHapCounter};
use crate::definition::AlleleDefinition;
use crate::read::{sentinel_sketch, spec_is_partial, ReadHaplotype};
use crate::result::TypingCoverage;

verus! {

broadcast use vstd::multiset::group_multiset_axioms;

/// One alignment covering a reference position, as the pileup source hands
/// it over: the read's identity, its filter flags, the base quality, and
/// the called base or a gap.
#[derive(Debug)]
pub struct PileupAlignment {
    pub read_name: String,
    pub secondary: bool,
    pub supplementary: bool,
    pub duplicate: bool,
    pub qc_fail: bool,
    pub base_quality: u8,
    pub is_gap: bool,
    pub base: char,
}

/// Whether an alignment contributes an allele: not flagged
/// secondary/supplementary/duplicate/quality-check-failed, and its base
/// quality reaches the minimum.
pub open spec fn keep_alignment(al: PileupAlignment, min_bq: u8) -> bool {
    !al.secondary && !al.supplementary && !al.duplicate && !al.qc_fail && al.base_quality >= min_bq
}

/// The allele an alignment contributes: the gap symbol for a deletion or
/// reference skip, otherwise the called base.
pub open spec fn symbol_of(al: PileupAlignment) -> char {
    if al.is_gap {
        '-'
    } else {
        al.base
    }
}

/// First index holding the read name, or -1.
pub open spec fn find_name(s: Seq<(Seq<char>, Seq<char>)>, name: Seq<char>) -> int
    decreases s.len(),
{
    if s.len() == 0 {
        -1
    } else if s[0].0 == name {
        0
    } else {
        let r = find_name(s.drop_first(), name);
        if r < 0 {
            -1
        } else {
            r + 1
        }
    }
}

pub proof fn lemma_find_name_props(s: Seq<(Seq<char>, Seq<char>)>, name: Seq<char>)
    ensures
        find_name(s, name) == -1 || 0 <= find_name(s, name) < s.len(),
        find_name(s, name) == -1 ==> forall|j: int| 0 <= j < s.len() ==> s[j].0 != name,
        find_name(s, name) >= 0 ==> s[find_name(s, name)].0 == name && forall|j: int|
            0 <= j < find_name(s, name) ==> s[j].0 != name,
    decreases s.len(),
{
    if s.len() > 0 && s[0].0 != name {
        let df = s.drop_first();
        lemma_find_name_props(df, name);
        let r = find_name(df, name);
        if r < 0 {
            assert forall|j: int| 0 <= j < s.len() implies s[j].0 != name by {
                if j > 0 {
                    assert(df[j - 1] == s[j]);
                    assert(df[j - 1].0 != name);
                }
            }
        } else {
            assert(find_name(s, name) == r + 1);
            assert(s[r + 1] == df[r]);
            assert forall|j: int| 0 <= j < r + 1 implies s[j].0 != name by {
                if j > 0 {
                    assert(df[j - 1] == s[j]);
                    assert(df[j - 1].0 != name);
                }
            }
        }
    }
}

/// Record one allele into the sketch of the named read: the existing sketch
/// is updated in place, or a fresh all-sentinel sketch is created for a read
/// seen for the first time.
pub open spec fn record_one(
    s: Seq<(Seq<char>, Seq<char>)>,
    name: Seq<char>,
    slot: int,
    sym: char,
    n: nat,
) -> Seq<(Seq<char>, Seq<char>)> {
    let i = find_name(s, name);
    if i >= 0 {
        s.update(i, (name, s[i].1.update(slot, sym)))
    } else {
        s.push((name, sentinel_sketch(n).update(slot, sym)))
    }
}

/// Record the alleles of every contributing alignment, in order.
pub open spec fn record_all(
    s: Seq<(Seq<char>, Seq<char>)>,
    aligns: Seq<PileupAlignment>,
    slot: int,
    n: nat,
    min_bq: u8,
) -> Seq<(Seq<char>, Seq<char>)>
    decreases aligns.len(),
{
    if aligns.len() == 0 {
        s
    } else {
        let prev = record_all(s, aligns.drop_last(), slot, n, min_bq);
        let al = aligns.last();
        if keep_alignment(al, min_bq) {
            record_one(prev, al.read_name@, slot, symbol_of(al), n)
        } else {
            prev
        }
    }
}

/// The multiset of complete sketches.
pub open spec fn complete_tally(s: Seq<(Seq<char>, Seq<char>)>) -> Multiset<Seq<char>>
    decreases s.len(),
{
    if s.len() == 0 {
        Multiset::empty()
    } else if spec_is_partial(s.last().1) {
        complete_tally(s.drop_last())
    } else {
        complete_tally(s.drop_last()).insert(s.last().1)
    }
}

/// How many sketches are partial.
pub open spec fn num_partial(s: Seq<(Seq<char>, Seq<char>)>) -> nat
    decreases s.len(),
{
    if s.len() == 0 {
        0
    } else {
        num_partial(s.drop_last()) + if spec_is_partial(s.last().1) {
            1nat
        } else {
            0nat
        }
    }
}

pub open spec fn max_depth(s: Seq<u32>) -> nat
    decreases s.len(),
{
    if s.len() == 0 {
        0
    } else {
        let m = max_depth(s.drop_last());
        if s.last() as nat >= m {
            s.last() as nat
        } else {
            m
        }
    }
}

pub open spec fn min_depth(s: Seq<u32>) -> nat
    decreases s.len(),
{
    if s.len() == 0 {
        0
    } else if s.len() == 1 {
        s[0] as nat
    } else {
        let m = min_depth(s.drop_last());
        if s.last() as nat <= m {
            s.last() as nat
        } else {
            m
        }
    }
}

pub open spec fn sum_depth(s: Seq<u32>) -> nat
    decreases s.len(),
{
    if s.len() == 0 {
        0
    } else {
        sum_depth(s.drop_last()) + s.last() as nat
    }
}

proof fn lemma_sum_depth_bound(s: Seq<u32>)
    ensures
        sum_depth(s) <= s.len() * 0xffff_ffff,
    decreases s.len(),
{
    if s.len() > 0 {
        lemma_sum_depth_bound(s.drop_last());
    }
}

/// Observer of one marker: per-read sketches under construction plus the
/// per-position depth series of the marker's span.
#[derive(Debug)]
pub struct HaplotypeObserver {
    definition: AlleleDefinition,
    index: Vec<(String, ReadHaplotype)>,
    depths: Vec<u32>,
}

impl HaplotypeObserver {
    /// The marker's ADS offsets.
    pub closed spec fn ads(&self) -> Seq<u32> {
        self.definition.ads_offsets()
    }

    /// The sketch slot of a registered ADS offset.
    pub closed spec fn slot_of(&self, offset: u32) -> int {
        self.definition.spec_index_of(offset)
    }

    /// The accumulated (read name, sketch) pairs, in order of first
    /// observation.
    pub closed spec fn sketch_entries(&self) -> Seq<(Seq<char>, Seq<char>)> {
        self.index@.map_values(|p: (String, ReadHaplotype)| (p.0@, p.1@))
    }

    /// The raw depth recorded per position of the span, in pileup order.
    pub closed spec fn depth_series(&self) -> Seq<u32> {
        self.depths@
    }

    /// The definition is well formed, read names are unique, and every
    /// sketch has one slot per ADS.
    pub closed spec fn wf(&self) -> bool {
        &&& self.definition.wf()
        &&& forall|i: int, j: int|
            0 <= i < j < self.sketch_entries().len() ==> self.sketch_entries()[i].0
                != self.sketch_entries()[j].0
        &&& forall|i: int|
            0 <= i < self.sketch_entries().len() ==> (#[trigger] self.sketch_entries()[i].1).len()
                == self.ads().len()
    }

    /// A fresh observer for one marker, with no reads and no depths.
    pub fn new(definition: &AlleleDefinition) -> (r: HaplotypeObserver)
        requires
            definition.wf(),
        ensures
            r.wf(),
            r.ads() == definition.ads_offsets(),
            r.sketch_entries() == Seq::<(Seq<char>, Seq<char>)>::empty(),
            r.depth_series() == Seq::<u32>::empty(),
    {
        let r = HaplotypeObserver {
            definition: definition.clone(),
            index: Vec::new(),
            depths: Vec::new(),
        };
        proof {
            assert(r.sketch_entries() =~= Seq::<(Seq<char>, Seq<char>)>::empty());
            assert(r.depth_series() =~= Seq::<u32>::empty());
        }
        r
    }

    /// Whether the given genomic offset is one of the marker's ADSs.
    pub fn is_ads(&self, offset: u32) -> (r: bool)
        requires
            self.wf(),
        ensures
            r == self.ads().contains(offset),
    {
        self.definition.is_ads(offset)
    }

    /// Record the allele observed at a registered ADS offset for the named
    /// read, creating the read's sketch on first sight.
    pub fn set(&mut self, read_name: &str, offset: u32, base: char)
        requires
            old(self).wf(),
            old(self).ads().contains(offset),
        ensures
            final(self).wf(),
            final(self).ads() == old(self).ads(),
            final(self).depth_series() == old(self).depth_series(),
            final(self).sketch_entries() == record_one(
                old(self).sketch_entries(),
                read_name@,
                old(self).slot_of(offset),
                base,
                old(self).ads().len(),
            ),
    {
        let ghost olds = self.sketch_entries();
        let ghost slot = self.slot_of(offset);
        let ghost n = self.ads().len();
        let num_snps = self.definition.num_snps();
        let idx = self.definition.get_index(offset).unwrap();
        let key = read_name.to_owned();
        let mut i: usize = 0;
        proof {
            lemma_find_name_props(olds, read_name@);
        }
        while i < self.index.len()
            invariant
                self.wf(),
                self.sketch_entries() == olds,
                olds == old(self).sketch_entries(),
                self.ads() == old(self).ads(),
                self.depth_series() == old(self).depth_series(),
                olds.len() == self.index@.len(),
                i <= olds.len(),
                key@ == read_name@,
                idx as int == slot,
                slot == old(self).slot_of(offset),
                idx < n == old(self).ads().len(),
                forall|j: int| 0 <= j < i ==> olds[j].0 != read_name@,
            decreases olds.len() - i,
        {
            if self.index[i].0 == key {
                proof {
                    lemma_find_name_props(olds, read_name@);
                    let f = find_name(olds, read_name@);
                    assert(olds[i as int].0 == read_name@);
                    assert(f >= 0);
                    if f < i as int {
                        assert(olds[f].0 == read_name@);
                    } else if f > i as int {
                        assert(olds[i as int].0 != read_name@);
                    }
                    assert(f == i as int);
                }
                let name = self.index[i].0.clone();
                let mut hap = self.index[i].1.clone();
                hap.set(idx, base);
                self.index[i] = (name, hap);
                proof {
                    assert(self.sketch_entries() =~= olds.update(
                        i as int,
                        (read_name@, olds[i as int].1.update(slot, base)),
                    ));
                    assert forall|p: int, q: int|
                        0 <= p < q < self.sketch_entries().len() implies self.sketch_entries()[p].0
                        != self.sketch_entries()[q].0 by {
                        assert(self.sketch_entries()[p].0 == olds[p].0);
                        assert(self.sketch_entries()[q].0 == olds[q].0);
                    }
                }
                return;
            }
            i = i + 1;
        }
        proof {
            lemma_find_name_props(olds, read_name@);
            if find_name(olds, read_name@) >= 0 {
                assert(olds[find_name(olds, read_name@)].0 == read_name@);
            }
        }
        let mut hap = ReadHaplotype::new(num_snps);
        hap.set(idx, base);
        self.index.push((key, hap));
        proof {
            assert(self.sketch_entries() =~= olds.push(
                (read_name@, sentinel_sketch(n).update(slot, base)),
            ));
            assert forall|p: int, q: int|
                0 <= p < q < self.sketch_entries().len() implies self.sketch_entries()[p].0
                != self.sketch_entries()[q].0 by {
                if q == olds.len() {
                    assert(self.sketch_entries()[p].0 == olds[p].0);
                    assert(self.sketch_entries()[q].0 == read_name@);
                } else {
                    assert(self.sketch_entries()[p].0 == olds[p].0);
                    assert(self.sketch_entries()[q].0 == olds[q].0);
                }
            }
        }
    }

    /// Record a whole sketch for the named read at once, overwriting any
    /// existing sketch for that read.
    pub fn set_all(&mut self, read_name: &str, alleles: &str)
        requires
            old(self).wf(),
            alleles@.len() == old(self).ads().len(),
        ensures
            final(self).wf(),
            final(self).ads() == old(self).ads(),
            final(self).depth_series() == old(self).depth_series(),
            final(self).sketch_entries() == if find_name(old(self).sketch_entries(), read_name@)
                >= 0 {
                old(self).sketch_entries().update(
                    find_name(old(self).sketch_entries(), read_name@),
                    (read_name@, alleles@),
                )
            } else {
                old(self).sketch_entries().push((read_name@, alleles@))
            },
    {
        let ghost olds = self.sketch_entries();
        let hap = ReadHaplotype::from_string(alleles);
        let key = read_name.to_owned();
        let mut i: usize = 0;
        proof {
            lemma_find_name_props(olds, read_name@);
        }
        while i < self.index.len()
            invariant
                self.wf(),
                self.sketch_entries() == olds,
                olds == old(self).sketch_entries(),
                self.ads() == old(self).ads(),
                self.depth_series() == old(self).depth_series(),
                alleles@.len() == self.ads().len(),
                olds.len() == self.index@.len(),
                i <= olds.len(),
                key@ == read_name@,
                hap@ == alleles@,
                forall|j: int| 0 <= j < i ==> olds[j].0 != read_name@,
            decreases olds.len() - i,
        {
            if self.index[i].0 == key {
                proof {
                    lemma_find_name_props(olds, read_name@);
                    let f = find_name(olds, read_name@);
                    assert(olds[i as int].0 == read_name@);
                    assert(f >= 0);
                    if f < i as int {
                        assert(olds[f].0 == read_name@);
                    } else if f > i as int {
                        assert(olds[i as int].0 != read_name@);
                    }
                    assert(f == i as int);
                }
                let name = self.index[i].0.clone();
                self.index[i] = (name, hap);
                proof {
                    assert(self.sketch_entries() =~= olds.update(
                        i as int,
                        (read_name@, alleles@),
                    ));
                    assert forall|p: int, q: int|
                        0 <= p < q < self.sketch_entries().len() implies self.sketch_entries()[p].0
                        != self.sketch_entries()[q].0 by {
                        assert(self.sketch_entries()[p].0 == olds[p].0);
                        assert(self.sketch_entries()[q].0 == olds[q].0);
                    }
                }
                return;
            }
            i = i + 1;
        }
        proof {
            lemma_find_name_props(olds, read_name@);
            if find_name(olds, read_name@) >= 0 {
                assert(olds[find_name(olds, read_name@)].0 == read_name@);
            }
        }
        self.index.push((key, hap));
        proof {
            assert(self.sketch_entries() =~= olds.push((read_name@, alleles@)));
            assert forall|p: int, q: int|
                0 <= p < q < self.sketch_entries().len() implies self.sketch_entries()[p].0
                != self.sketch_entries()[q].0 by {
                if q == olds.len() {
                    assert(self.sketch_entries()[p].0 == olds[p].0);
                    assert(self.sketch_entries()[q].0 == read_name@);
                } else {
                    assert(self.sketch_entries()[p].0 == olds[p].0);
                    assert(self.sketch_entries()[q].0 == olds[q].0);
                }
            }
        }
    }

    /// Tally the complete sketches: every read whose sketch still holds a
    /// sentinel contributes nothing.
    pub fn count(&self) -> (r: ReadHapCounter)
        requires
            self.wf(),
        ensures
            r.wf(),
            forall|k: Seq<char>| #[trigger] count_in(r@, k) == complete_tally(
                self.sketch_entries(),
            ).count(k),
            forall|k: Seq<char>| #[trigger] has_key(r@, k) <==> complete_tally(
                self.sketch_entries(),
            ).count(k) > 0,
    {
        let ghost es = self.sketch_entries();
        let mut c = ReadHapCounter::new();
        let mut i: usize = 0;
        while i < self.index.len()
            invariant
                self.wf(),
                es == self.sketch_entries(),
                es.len() == self.index@.len(),
                i <= es.len(),
                c.wf(),
                crate::counter::total_of(c@) == complete_tally(es.take(i as int)).len(),
                forall|k: Seq<char>| #[trigger] count_in(c@, k) == complete_tally(
                    es.take(i as int),
                ).count(k),
                forall|k: Seq<char>| #[trigger] has_key(c@, k) <==> complete_tally(
                    es.take(i as int),
                ).count(k) > 0,
            decreases es.len() - i,
        {
            proof {
                assert(es.take(i + 1).drop_last() =~= es.take(i as int));
                assert(es.take(i + 1).last() == es[i as int]);
                assert(complete_tally(es.take(i as int)).len() <= es.take(i as int).len()) by {
                    lemma_complete_tally_len(es.take(i as int));
                }
            }
            if !self.index[i].1.is_partial() {
                c.increment(&self.index[i].1);
            }
            i = i + 1;
        }
        proof {
            assert(es.take(es.len() as int) =~= es);
        }
        c
    }

    /// How many sketches the tally excluded for being partial.
    pub fn discarded(&self) -> (r: usize)
        requires
            self.wf(),
        ensures
            r as nat == num_partial(self.sketch_entries()),
    {
        let ghost es = self.sketch_entries();
        let mut n: usize = 0;
        let mut i: usize = 0;
        while i < self.index.len()
            invariant
                es == self.sketch_entries(),
                es.len() == self.index@.len(),
                i <= es.len(),
                n <= i,
                n as nat == num_partial(es.take(i as int)),
            decreases es.len() - i,
        {
            proof {
                assert(es.take(i + 1).drop_last() =~= es.take(i as int));
                assert(es.take(i + 1).last() == es[i as int]);
            }
            if self.index[i].1.is_partial() {
                n = n + 1;
            }
            i = i + 1;
        }
        proof {
            assert(es.take(es.len() as int) =~= es);
        }
        n
    }

    /// Depth statistics over the recorded series: maximum, sum, number of
    /// positions and minimum.  An empty series yields all zeroes.
    pub fn coverage(&self) -> (r: TypingCoverage)
        ensures
            r.max as nat == max_depth(self.depth_series()),
            r.min as nat == min_depth(self.depth_series()),
            r.total_depth as nat == sum_depth(self.depth_series()),
            r.num_positions == self.depth_series().len(),
    {
        let ghost ds = self.depth_series();
        let mut mx: u32 = 0;
        let mut mn: u32 = 0;
        let mut sum: u128 = 0;
        let mut i: usize = 0;
        while i < self.depths.len()
            invariant
                ds == self.depth_series(),
                ds.len() == self.depths@.len(),
                i <= ds.len(),
                mx as nat == max_depth(ds.take(i as int)),
                mn as nat == min_depth(ds.take(i as int)),
                sum as nat == sum_depth(ds.take(i as int)),
            decreases ds.len() - i,
        {
            proof {
                assert(ds.take(i + 1).drop_last() =~= ds.take(i as int));
                assert(ds.take(i + 1).last() == ds[i as int]);
                lemma_sum_depth_bound(ds.take(i as int));
            }
            let d = self.depths[i];
            if d > mx {
                mx = d;
            }
            if i == 0 || d < mn {
                mn = d;
            }
            sum = sum + d as u128;
            i = i + 1;
        }
        proof {
            assert(ds.take(ds.len() as int) =~= ds);
        }
        TypingCoverage { max: mx, total_depth: sum, num_positions: self.depths.len(), min: mn }
    }

    /// Process one reference position of the pileup: record its raw depth
    /// when it lies within the marker's span, and at an ADS record the
    /// allele of every contributing alignment.
    pub fn observe_position(
        &mut self,
        refr_pos: u32,
        depth: u32,
        alignments: &Vec<PileupAlignment>,
        min_base_qual: u8,
    )
        requires
            old(self).wf(),
        ensures
            final(self).wf(),
            final(self).ads() == old(self).ads(),
            final(self).depth_series() == if old(self).ads().len() > 0 && old(self).ads()[0]
                <= refr_pos <= old(self).ads()[old(self).ads().len() - 1] {
                old(self).depth_series().push(depth)
            } else {
                old(self).depth_series()
            },
            final(self).sketch_entries() == if old(self).ads().contains(refr_pos) {
                record_all(
                    old(self).sketch_entries(),
                    alignments@,
                    old(self).slot_of(refr_pos),
                    old(self).ads().len(),
                    min_base_qual,
                )
            } else {
                old(self).sketch_entries()
            },
    {
        if self.definition.num_snps() == 0 {
            return;
        }
        let start = self.definition.start();
        let end = self.definition.end();
        if refr_pos >= start && refr_pos <= end {
            self.depths.push(depth);
        }
        proof {
            assert(self.index@ == old(self).index@);
            assert(self.sketch_entries() == old(self).sketch_entries());
            assert(self.wf());
        }
        if !self.definition.is_ads(refr_pos) {
            return;
        }
        let ghost olds = self.sketch_entries();
        let ghost slot = self.slot_of(refr_pos);
        let ghost n = self.ads().len();
        let mut k: usize = 0;
        while k < alignments.len()
            invariant
                self.wf(),
                self.ads() == old(self).ads(),
                self.depth_series() == old(self).depth_series().push(depth) || self.depth_series()
                    == old(self).depth_series(),
                self.depth_series() == old(self).depth_series().push(depth) <==> (old(
                    self,
                ).ads().len() > 0 && old(self).ads()[0] <= refr_pos <= old(self).ads()[old(
                    self,
                ).ads().len() - 1]),
                k <= alignments@.len(),
                self.ads().contains(refr_pos),
                slot == self.slot_of(refr_pos),
                n == self.ads().len(),
                self.sketch_entries() == record_all(
                    olds,
                    alignments@.take(k as int),
                    slot,
                    n as nat,
                    min_base_qual,
                ),
            decreases alignments@.len() - k,
        {
            proof {
                assert(alignments@.take(k + 1).drop_last() =~= alignments@.take(k as int));
                assert(alignments@.take(k + 1).last() == alignments@[k as int]);
            }
            let al = &alignments[k];
            let flagged = al.secondary || al.supplementary || al.duplicate || al.qc_fail;
            if !flagged && al.base_quality >= min_base_qual {
                let symbol = if al.is_gap {
                    '-'
                } else {
                    al.base
                };
                self.set(al.read_name.as_str(), refr_pos, symbol);
            }
            k = k + 1;
        }
        proof {
            assert(alignments@.take(alignments@.len() as int) =~= alignments@);
        }
    }
}

/// The tally never holds more sketches than there are reads.
proof fn lemma_complete_tally_len(s: Seq<(Seq<char>, Seq<char>)>)
    ensures
        complete_tally(s).len() <= s.len(),
    decreases s.len(),
{
    if s.len() > 0 {
        lemma_complete_tally_len(s.drop_last());
    }
}

} // verus!
