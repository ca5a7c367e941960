//! The two-stage threshold filter that turns a raw tally into a genotype
//! call.
//!
//! Stage 1 (absolute) drops sketches whose raw count falls below the
//! detection threshold.  Stage 2 (relative) resolves the analytical
//! fraction against the stage-1 *cleaned* total — not the raw total; the
//! relative threshold is a share of the signal left after absolute noise
//! removal — and drops the stage-1 survivors below `floor(total ×
//! fraction)`.  Both boundaries are inclusive.  The surviving sketches, in
//! ascending order, form the genotype; an empty genotype is a valid
//! outcome, not an error.

use vstd::prelude::*;

use crate::counter::{
    count_in, entries_sorted, filter_ge, has_key, keys_of, lemma_filter_ge_identity,
    lemma_filter_ge_monotone, lemma_filter_ge_props, total_of, ReadHapCounter,
};
use crate::observer::{complete_tally, max_depth, min_depth, num_partial, sum_depth,
    HaplotypeObserver};
use crate::read::ReadHaplotype;
use crate::result::{TypingCoverage, TypingResult};
use crate::thresholds::{
    frac_le, lemma_resolved_le_total, lemma_resolved_monotone, resolved_count, Fraction,
    TypingThresholds,
};

verus! {

/// Stage 1: the entries whose raw count reaches the detection threshold.
pub open spec fn stage1(s: Seq<(Seq<char>, u64)>, detection: nat) -> Seq<(Seq<char>, u64)> {
    filter_ge(s, detection)
}

/// The resolved analytical count: the stage-1 cleaned total times the
/// fraction, truncated.
pub open spec fn resolved_analytical(
    s: Seq<(Seq<char>, u64)>,
    detection: nat,
    f: Fraction,
) -> nat {
    resolved_count(total_of(stage1(s, detection)), f)
}

/// Both stages: the stage-1 survivors whose count also reaches the
/// resolved analytical count.
pub open spec fn two_stage(s: Seq<(Seq<char>, u64)>, detection: nat, f: Fraction) -> Seq<
    (Seq<char>, u64),
> {
    filter_ge(stage1(s, detection), resolved_analytical(s, detection, f))
}

/// The genotype called from a tally: the sketches surviving both stages,
/// in their tally order.
pub open spec fn genotype_of(s: Seq<(Seq<char>, u64)>, detection: nat, f: Fraction) -> Seq<
    Seq<char>,
> {
    keys_of(two_stage(s, detection, f))
}

/// Applies the two-stage filter to the tally of one marker's observer.
#[derive(Debug)]
pub struct HaplotypeCaller {
    pub detection_filter: u16,
    pub analytical_filter: Fraction,
    pub raw_counts: ReadHapCounter,
    pub counts: ReadHapCounter,
    pub coverage: TypingCoverage,
    pub discarded: usize,
}

impl HaplotypeCaller {
    /// Snapshot an observer: its tally (kept twice, once immutable for
    /// provenance and once to be filtered), coverage statistics and
    /// discarded-read count, with both filters initially disengaged.
    pub fn from_observer(observer: &HaplotypeObserver) -> (r: HaplotypeCaller)
        requires
            observer.wf(),
        ensures
            r.detection_filter == 0,
            r.analytical_filter == (Fraction { num: 0, den: 1 }),
            r.raw_counts.wf(),
            r.counts.wf(),
            r.counts@ == r.raw_counts@,
            forall|k: Seq<char>| #[trigger] count_in(r.raw_counts@, k) == complete_tally(
                observer.sketch_entries(),
            ).count(k),
            forall|k: Seq<char>| #[trigger] has_key(r.raw_counts@, k) <==> complete_tally(
                observer.sketch_entries(),
            ).count(k) > 0,
            r.coverage.max as nat == max_depth(observer.depth_series()),
            r.coverage.min as nat == min_depth(observer.depth_series()),
            r.coverage.total_depth as nat == sum_depth(observer.depth_series()),
            r.coverage.num_positions == observer.depth_series().len(),
            r.discarded as nat == num_partial(observer.sketch_entries()),
    {
        let raw_counts = observer.count();
        let counts = raw_counts.clone();
        HaplotypeCaller {
            detection_filter: 0,
            analytical_filter: Fraction::zero(),
            raw_counts,
            counts,
            coverage: observer.coverage(),
            discarded: observer.discarded(),
        }
    }

    /// Stage 1: keep only sketches whose count reaches the detection
    /// threshold.
    fn apply_detection_threshold(&mut self) -> (r: u16)
        requires
            old(self).counts.wf(),
        ensures
            r == old(self).detection_filter,
            final(self).counts@ == stage1(old(self).counts@, r as nat),
            final(self).counts.wf(),
            final(self).detection_filter == old(self).detection_filter,
            final(self).analytical_filter == old(self).analytical_filter,
            final(self).raw_counts == old(self).raw_counts,
            final(self).coverage == old(self).coverage,
            final(self).discarded == old(self).discarded,
    {
        let threshold = self.detection_filter;
        self.counts = self.counts.filtered(threshold as u64);
        threshold
    }

    /// Stage 2: resolve the analytical fraction against the current
    /// (cleaned) total and keep only sketches that reach it.
    fn apply_analytical_threshold(&mut self) -> (r: u64)
        requires
            old(self).counts.wf(),
            old(self).analytical_filter.wf(),
        ensures
            r as nat == resolved_count(
                total_of(old(self).counts@),
                old(self).analytical_filter,
            ),
            final(self).counts@ == filter_ge(old(self).counts@, r as nat),
            final(self).counts.wf(),
            final(self).detection_filter == old(self).detection_filter,
            final(self).analytical_filter == old(self).analytical_filter,
            final(self).raw_counts == old(self).raw_counts,
            final(self).coverage == old(self).coverage,
            final(self).discarded == old(self).discarded,
    {
        let total = self.counts.total_count();
        let num = self.analytical_filter.num;
        let den = self.analytical_filter.den;
        proof {
            assert((total as nat) * (num as nat) <= u128::MAX) by (nonlinear_arith)
                requires
                    total as nat <= 0xffff_ffff_ffff_ffffnat,
                    num as nat <= 0xffff_ffffnat,
            ;
        }
        let product: u128 = (total as u128) * (num as u128);
        let resolved128: u128 = product / (den as u128);
        proof {
            lemma_resolved_le_total(total as nat, self.analytical_filter);
            assert(resolved128 as nat == resolved_count(
                total as nat,
                self.analytical_filter,
            ));
        }
        let resolved: u64 = resolved128 as u64;
        self.counts = self.counts.filtered(resolved);
        resolved
    }

    /// Apply both filter stages to the current tally and package the
    /// result: the genotype (ascending), the untouched raw tally, the
    /// coverage statistics, the discarded count, and the resolved
    /// thresholds.
    pub fn apply_filters(&mut self, detection: u16, analytical: Fraction) -> (r: TypingResult)
        requires
            old(self).counts.wf(),
            old(self).raw_counts.wf(),
            analytical.wf(),
        ensures
            final(self).detection_filter == detection,
            final(self).analytical_filter == analytical,
            final(self).counts@ == two_stage(old(self).counts@, detection as nat, analytical),
            final(self).counts.wf(),
            final(self).raw_counts == old(self).raw_counts,
            final(self).coverage == old(self).coverage,
            final(self).discarded == old(self).discarded,
            crate::counter::haps_view(r.genotype@) == genotype_of(
                old(self).counts@,
                detection as nat,
                analytical,
            ),
            r.counts@ == old(self).raw_counts@,
            r.coverage == old(self).coverage,
            r.num_discarded == old(self).discarded,
            r.thresholds == (TypingThresholds {
                dynamic: analytical,
                analytical: resolved_analytical(
                    old(self).counts@,
                    detection as nat,
                    analytical,
                ) as u64,
                detection,
            }),
            resolved_analytical(old(self).counts@, detection as nat, analytical) <= u64::MAX,
            forall|i: int, j: int|
                0 <= i < j < r.genotype@.len() ==> crate::lex::lex_lt(
                    r.genotype@[i]@,
                    r.genotype@[j]@,
                ),
    {
        proof {
            lemma_genotype_sorted(old(self).counts@, detection as nat, analytical);
            lemma_filter_ge_props(old(self).counts@, detection as nat);
            lemma_resolved_le_total(
                total_of(stage1(old(self).counts@, detection as nat)),
                analytical,
            );
        }
        self.detection_filter = detection;
        self.analytical_filter = analytical;
        let detect = self.apply_detection_threshold();
        let analy = self.apply_analytical_threshold();
        let genotype = self.counts.keys();
        let thresholds = TypingThresholds {
            dynamic: analytical,
            analytical: analy,
            detection: detect,
        };
        let counts = self.raw_counts.clone();
        proof {
            assert forall|i: int, j: int|
                0 <= i < j < genotype@.len() implies crate::lex::lex_lt(
                genotype@[i]@,
                genotype@[j]@,
            ) by {
                let g = genotype_of(old(self).counts@, detection as nat, analytical);
                assert(crate::counter::haps_view(genotype@) == g);
                assert(genotype@[i]@ == crate::counter::haps_view(genotype@)[i]);
                assert(genotype@[j]@ == crate::counter::haps_view(genotype@)[j]);
                assert(crate::lex::lex_lt(g[i], g[j]));
            }
        }
        TypingResult {
            genotype,
            coverage: self.coverage,
            num_discarded: self.discarded,
            thresholds,
            counts,
        }
    }
}

/// Idempotence of the filter on the tally: applying the two stages to
/// their own output, with the same thresholds, changes nothing, so the
/// genotype called from a filtered tally is the genotype itself.
pub proof fn lemma_two_stage_idempotent(s: Seq<(Seq<char>, u64)>, detection: nat, f: Fraction)
    requires
        f.wf(),
    ensures
        two_stage(two_stage(s, detection, f), detection, f) == two_stage(s, detection, f),
        genotype_of(two_stage(s, detection, f), detection, f) == genotype_of(s, detection, f),
{
    let s1 = stage1(s, detection);
    let r = resolved_analytical(s, detection, f);
    let s2 = two_stage(s, detection, f);
    lemma_filter_ge_props(s, detection);
    lemma_filter_ge_props(s1, r);
    // every stage-2 survivor reaches the detection threshold
    assert forall|i: int| 0 <= i < s2.len() implies #[trigger] s2[i].1 >= detection by {
        let j = choose|j: int| 0 <= j < s1.len() && s1[j] == s2[i];
    }
    lemma_filter_ge_identity(s2, detection);
    assert(stage1(s2, detection) == s2);
    // the re-resolved analytical count cannot exceed the first one
    let r2 = resolved_analytical(s2, detection, f);
    assert(total_of(s2) <= total_of(s1));
    lemma_resolved_mono_total(total_of(s2), total_of(s1), f);
    assert(r2 <= r);
    assert forall|i: int| 0 <= i < s2.len() implies #[trigger] s2[i].1 >= r2 by {
        assert(s2[i].1 >= r);
    }
    lemma_filter_ge_identity(s2, r2);
}

/// Resolving the same fraction against a smaller total yields a count at
/// most as large.
proof fn lemma_resolved_mono_total(t1: nat, t2: nat, f: Fraction)
    requires
        t1 <= t2,
        f.wf(),
    ensures
        resolved_count(t1, f) <= resolved_count(t2, f),
{
    assert(t1 * f.num <= t2 * f.num) by (nonlinear_arith)
        requires
            t1 <= t2,
            f.num >= 0,
    ;
    vstd::arithmetic::div_mod::lemma_div_is_ordered(
        (t1 * f.num) as int,
        (t2 * f.num) as int,
        f.den as int,
    );
}

/// Monotonicity of the detection stage: raising the detection threshold
/// never enlarges the set of stage-1 survivors.
pub proof fn lemma_detection_monotone(s: Seq<(Seq<char>, u64)>, d1: nat, d2: nat)
    requires
        d1 <= d2,
    ensures
        stage1(s, d2).len() <= stage1(s, d1).len(),
{
    lemma_filter_ge_monotone(s, d1, d2);
}

/// Monotonicity of the whole filter in the detection threshold, with the
/// analytical stage disengaged.  With the analytical stage engaged the
/// claim does not hold in general: raising the detection threshold shrinks
/// the cleaned total, which lowers the resolved analytical count and can
/// let more stage-1 survivors through.
pub proof fn lemma_detection_monotone_genotype(
    s: Seq<(Seq<char>, u64)>,
    d1: nat,
    d2: nat,
    f: Fraction,
)
    requires
        d1 <= d2,
        f.wf(),
        f.num == 0,
    ensures
        genotype_of(s, d2, f).len() <= genotype_of(s, d1, f).len(),
{
    lemma_analytical_zero(s, d1, f);
    lemma_analytical_zero(s, d2, f);
    lemma_filter_ge_monotone(s, d1, d2);
}

/// Monotonicity in the analytical fraction: with the same detection
/// threshold, a larger fraction never enlarges the genotype.
pub proof fn lemma_analytical_monotone(
    s: Seq<(Seq<char>, u64)>,
    detection: nat,
    f1: Fraction,
    f2: Fraction,
)
    requires
        f1.wf(),
        f2.wf(),
        frac_le(f1, f2),
    ensures
        genotype_of(s, detection, f2).len() <= genotype_of(s, detection, f1).len(),
{
    let s1 = stage1(s, detection);
    lemma_resolved_monotone(total_of(s1), f1, f2);
    lemma_filter_ge_monotone(
        s1,
        resolved_analytical(s, detection, f1),
        resolved_analytical(s, detection, f2),
    );
}

/// Boundary behavior of the detection stage: a detection threshold of zero
/// keeps every sketch, so stage 2 filters the raw tally itself.
pub proof fn lemma_detection_zero(s: Seq<(Seq<char>, u64)>, f: Fraction)
    ensures
        stage1(s, 0) == s,
        two_stage(s, 0, f) == filter_ge(s, resolved_count(total_of(s), f)),
{
    lemma_filter_ge_identity(s, 0);
}

/// Boundary behavior of the analytical stage: a fraction of zero resolves
/// to a count of zero, so everything that survived stage 1 is kept.
pub proof fn lemma_analytical_zero(s: Seq<(Seq<char>, u64)>, detection: nat, f: Fraction)
    requires
        f.wf(),
        f.num == 0,
    ensures
        two_stage(s, detection, f) == stage1(s, detection),
{
    let s1 = stage1(s, detection);
    assert(total_of(s1) * f.num == 0) by (nonlinear_arith)
        requires
            f.num == 0,
    ;
    assert(resolved_analytical(s, detection, f) == 0);
    lemma_filter_ge_props(s, detection);
    assert(forall|i: int| 0 <= i < s1.len() ==> #[trigger] s1[i].1 >= 0);
    lemma_filter_ge_identity(s1, 0);
}

/// Deterministic order: the genotype of a sorted tally is strictly
/// ascending in the lexicographic order of its sketches.  Together with
/// the tally's canonical form, the genotype depends only on which sketch
/// was seen how often — never on the order the observations arrived in,
/// and never on the counts of ties.
pub proof fn lemma_genotype_sorted(s: Seq<(Seq<char>, u64)>, detection: nat, f: Fraction)
    requires
        entries_sorted(s),
    ensures
        forall|i: int, j: int|
            0 <= i < j < genotype_of(s, detection, f).len() ==> crate::lex::lex_lt(
                genotype_of(s, detection, f)[i],
                genotype_of(s, detection, f)[j],
            ),
{
    lemma_filter_ge_props(s, detection);
    lemma_filter_ge_props(stage1(s, detection), resolved_analytical(s, detection, f));
    crate::counter::lemma_keys_of_sorted(two_stage(s, detection, f));
}

/// The genotype never holds more sketches than survived stage 1: stage 2
/// only removes.
pub proof fn lemma_genotype_within_stage1(s: Seq<(Seq<char>, u64)>, detection: nat, f: Fraction)
    ensures
        genotype_of(s, detection, f).len() <= stage1(s, detection).len(),
{
    let s1 = stage1(s, detection);
    let r = resolved_analytical(s, detection, f);
    lemma_filter_ge_monotone(s1, 0, r);
    assert(forall|i: int| 0 <= i < s1.len() ==> #[trigger] s1[i].1 >= 0);
    lemma_filter_ge_identity(s1, 0);
}

/// Every called sketch is a key of the tally it was called from: the
/// filter stages only remove entries, never invent them.
pub proof fn lemma_genotype_subset(s: Seq<(Seq<char>, u64)>, detection: nat, f: Fraction)
    ensures
        forall|i: int|
            0 <= i < genotype_of(s, detection, f).len() ==> exists|j: int|
                0 <= j < s.len() && s[j].0 == #[trigger] genotype_of(s, detection, f)[i],
{
    let s1 = stage1(s, detection);
    let s2 = two_stage(s, detection, f);
    lemma_filter_ge_props(s, detection);
    lemma_filter_ge_props(s1, resolved_analytical(s, detection, f));
    assert forall|i: int|
        0 <= i < genotype_of(s, detection, f).len() implies exists|j: int|
        0 <= j < s.len() && s[j].0 == #[trigger] genotype_of(s, detection, f)[i] by {
        assert(genotype_of(s, detection, f)[i] == s2[i].0);
        let p = choose|p: int| 0 <= p < s1.len() && s1[p] == s2[i];
        let q = choose|q: int| 0 <= q < s.len() && s[q] == s1[p];
        assert(s[q].0 == genotype_of(s, detection, f)[i]);
    }
}

} // verus!
