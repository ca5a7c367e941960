//! Orchestration of a whole sample: one observer, one caller and one
//! profile entry per marker of the panel.
//!
//! Markers are processed independently; no state crosses marker
//! boundaries.  The caller of this type drives the pileup for each marker
//! into a `HaplotypeObserver` and then hands the observer over to
//! `process_marker`, which resolves that marker's thresholds, applies the
//! two-stage filter and stores the typing result in the profile.

use vstd::prelude::*;

use crate::caller::{genotype_of, resolved_analytical, HaplotypeCaller};
use crate::counter::{count_in, entries_sorted, has_key, haps_view};
use crate::observer::{
    complete_tally, max_depth, min_depth, num_partial, sum_depth, HaplotypeObserver,
};
use crate::panel::MicrohapPanel;
use crate::parameters::TypingParameters;
use crate::profile::MicrohapProfile;
use crate::result::TypingResult;
use crate::thresholds::{Fraction, TypingThresholds};

verus! {

/// What a stored typing result says about the observations it came from:
/// its raw tally is the canonical (sorted) tally of the observer's
/// complete sketches, its genotype and thresholds are the two-stage filter
/// applied to that tally with the resolved thresholds, and its coverage
/// and discard statistics are those of the observer.
pub open spec fn marker_call_ok(
    res: TypingResult,
    entries: Seq<(Seq<char>, Seq<char>)>,
    depths: Seq<u32>,
    detection: u16,
    analytical: Fraction,
) -> bool {
    let c = res.counts@;
    &&& entries_sorted(c)
    &&& forall|k: Seq<char>| #[trigger] count_in(c, k) == complete_tally(entries).count(k)
    &&& forall|k: Seq<char>| #[trigger] has_key(c, k) <==> complete_tally(entries).count(k) > 0
    &&& haps_view(res.genotype@) == genotype_of(c, detection as nat, analytical)
    &&& res.thresholds == (TypingThresholds {
        dynamic: analytical,
        analytical: resolved_analytical(c, detection as nat, analytical) as u64,
        detection,
    })
    &&& res.num_discarded as nat == num_partial(entries)
    &&& res.coverage.max as nat == max_depth(depths)
    &&& res.coverage.min as nat == min_depth(depths)
    &&& res.coverage.total_depth as nat == sum_depth(depths)
    &&& res.coverage.num_positions == depths.len()
}

/// Empirical microhaplotype calling across all markers of a panel for one
/// sample.
#[derive(Debug)]
pub struct MicrohapAnalyzer {
    pub panel: MicrohapPanel,
    pub profile: MicrohapProfile,
    pub parameters: TypingParameters,
}

impl MicrohapAnalyzer {
    pub open spec fn wf(&self) -> bool {
        &&& self.panel.wf()
        &&& self.profile.wf()
        &&& self.parameters.wf()
    }

    /// Start an analysis for one sample over the given panel, with the
    /// stock parameters.
    pub fn new(sample_id: &str, panel: MicrohapPanel) -> (r: MicrohapAnalyzer)
        requires
            panel.wf(),
        ensures
            r.wf(),
            r.panel == panel,
            r.profile.spec_sample_id() == sample_id@,
            r.profile.results_view() == Seq::<(Seq<char>, TypingResult)>::empty(),
            r.parameters.min_base_quality == 10,
            r.parameters.max_depth == 1_000_000,
            r.parameters.detection_threshold.spec_default() == 10u16,
            r.parameters.detection_threshold.overrides() == Seq::<(Seq<char>, u16)>::empty(),
            r.parameters.analytical_threshold.spec_default() == (Fraction { num: 4, den: 100 }),
            r.parameters.analytical_threshold.overrides() == Seq::<(Seq<char>, Fraction)>::empty(),
    {
        MicrohapAnalyzer {
            panel,
            profile: MicrohapProfile::new(sample_id),
            parameters: TypingParameters::defaults(),
        }
    }

    /// Finish one marker: tally the observer's sketches, resolve the
    /// marker's thresholds, apply the two-stage filter and store the
    /// result under the marker's identifier.
    pub fn process_marker(&mut self, mhid: &str, observer: &HaplotypeObserver)
        requires
            old(self).wf(),
            observer.wf(),
        ensures
            final(self).wf(),
            final(self).panel == old(self).panel,
            final(self).parameters == old(self).parameters,
            final(self).profile.spec_sample_id() == old(self).profile.spec_sample_id(),
            forall|k: Seq<char>| k != mhid@ ==> #[trigger] final(self).profile.spec_get(k) == old(
                self,
            ).profile.spec_get(k),
            final(self).profile.spec_get(mhid@) is Some,
            marker_call_ok(
                final(self).profile.spec_get(mhid@)->0,
                observer.sketch_entries(),
                observer.depth_series(),
                old(self).parameters.detection_threshold.spec_get(mhid@),
                old(self).parameters.analytical_threshold.spec_get(mhid@),
            ),
    {
        let mut caller = HaplotypeCaller::from_observer(observer);
        let detection = self.parameters.detection_threshold.get(mhid);
        let analytical = self.parameters.analytical_threshold.get(mhid);
        proof {
            self.parameters.lemma_get_wf(mhid@);
        }
        let result = caller.apply_filters(detection, analytical);
        self.profile.add(mhid, result);
    }

    /// The final microhaplotype profile for this sample.
    pub fn final_profile(&self) -> (r: &MicrohapProfile)
        ensures
            *r == self.profile,
    {
        &self.profile
    }
}

/// Determinism of a marker call: any two results that stand in
/// `marker_call_ok` to the same observations and thresholds carry the same
/// tally, the same genotype and the same resolved thresholds — however the
/// observations were ordered, the call is one and the same.
pub proof fn lemma_marker_call_deterministic(
    r1: TypingResult,
    r2: TypingResult,
    entries: Seq<(Seq<char>, Seq<char>)>,
    depths: Seq<u32>,
    detection: u16,
    analytical: Fraction,
)
    requires
        marker_call_ok(r1, entries, depths, detection, analytical),
        marker_call_ok(r2, entries, depths, detection, analytical),
    ensures
        r1.counts@ == r2.counts@,
        haps_view(r1.genotype@) == haps_view(r2.genotype@),
        r1.thresholds == r2.thresholds,
        r1.num_discarded == r2.num_discarded,
        r1.coverage == r2.coverage,
{
    crate::counter::lemma_counter_canonical(r1.counts@, r2.counts@);
}

} // verus!
