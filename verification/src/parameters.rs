//! The typing parameters of a run: panel-wide default thresholds,
//! per-marker overrides, and the pileup filters.

use vstd::prelude::*;

use crate::thresholds::{
    find_key, lemma_lookup_in, lookup, AnalyticalThreshold, DetectionThreshold, Fraction,
};

verus! {

/// All parameters governing one typing run.
#[derive(Debug)]
pub struct TypingParameters {
    pub detection_threshold: DetectionThreshold,
    pub analytical_threshold: AnalyticalThreshold,
    pub min_base_quality: u8,
    pub max_depth: u32,
}

impl TypingParameters {
    /// Every analytical value held by the registry is a well-formed ratio.
    pub open spec fn wf(&self) -> bool {
        &&& self.analytical_threshold.spec_default().wf()
        &&& forall|i: int|
            0 <= i < self.analytical_threshold.overrides().len() ==> (
            #[trigger] self.analytical_threshold.overrides()[i]).1.wf()
    }

    /// The resolved analytical ratio for any marker is well formed.
    pub proof fn lemma_get_wf(&self, id: Seq<char>)
        requires
            self.wf(),
        ensures
            self.analytical_threshold.spec_get(id).wf(),
    {
        lemma_lookup_in(self.analytical_threshold.overrides(), id);
        if lookup(self.analytical_threshold.overrides(), id) is Some {
            let t = lookup(self.analytical_threshold.overrides(), id)->0;
            let i = choose|i: int|
                0 <= i < self.analytical_threshold.overrides().len()
                    && self.analytical_threshold.overrides()[i].0 == id && #[trigger] self
                    .analytical_threshold.overrides()[i].1 == t;
        }
    }

    /// The stock parameters: detection threshold 10, analytical fraction
    /// 0.04, minimum base quality 10 and a per-position depth cap of one
    /// million.
    pub fn defaults() -> (r: TypingParameters)
        ensures
            r.wf(),
            r.min_base_quality == 10,
            r.max_depth == 1_000_000,
            r.detection_threshold.spec_default() == 10u16,
            r.detection_threshold.overrides() == Seq::<(Seq<char>, u16)>::empty(),
            r.analytical_threshold.spec_default() == (Fraction { num: 4, den: 100 }),
            r.analytical_threshold.overrides() == Seq::<(Seq<char>, Fraction)>::empty(),
    {
        TypingParameters {
            detection_threshold: DetectionThreshold::new(10),
            analytical_threshold: AnalyticalThreshold::new(Fraction { num: 4, den: 100 }),
            min_base_quality: 10,
            max_depth: 1_000_000,
        }
    }

    /// Parameters with the given panel-wide defaults and no overrides yet.
    pub fn new(
        detection_default: u16,
        analytical_default: Fraction,
        min_base_quality: u8,
        max_depth: u32,
    ) -> (r: TypingParameters)
        requires
            analytical_default.wf(),
        ensures
            r.wf(),
            r.min_base_quality == min_base_quality,
            r.max_depth == max_depth,
            r.detection_threshold.spec_default() == detection_default,
            r.detection_threshold.overrides() == Seq::<(Seq<char>, u16)>::empty(),
            r.analytical_threshold.spec_default() == analytical_default,
            r.analytical_threshold.overrides() == Seq::<(Seq<char>, Fraction)>::empty(),
    {
        TypingParameters {
            detection_threshold: DetectionThreshold::new(detection_default),
            analytical_threshold: AnalyticalThreshold::new(analytical_default),
            min_base_quality,
            max_depth,
        }
    }

    /// Install both per-marker overrides from one threshold table row.
    pub fn insert_thresholds(&mut self, marker_id: &str, detection: u16, analytical: Fraction)
        requires
            old(self).wf(),
            analytical.wf(),
        ensures
            final(self).wf(),
            final(self).min_base_quality == old(self).min_base_quality,
            final(self).max_depth == old(self).max_depth,
            final(self).detection_threshold.spec_default() == old(
                self,
            ).detection_threshold.spec_default(),
            final(self).analytical_threshold.spec_default() == old(
                self,
            ).analytical_threshold.spec_default(),
            forall|k: Seq<char>| #[trigger] final(self).detection_threshold.spec_get(k) == if k
                == marker_id@ {
                detection
            } else {
                old(self).detection_threshold.spec_get(k)
            },
            forall|k: Seq<char>| #[trigger] final(self).analytical_threshold.spec_get(k) == if k
                == marker_id@ {
                analytical
            } else {
                old(self).analytical_threshold.spec_get(k)
            },
    {
        let ghost olds = self.analytical_threshold.overrides();
        self.detection_threshold.insert(marker_id, detection);
        proof {
            assert(self.analytical_threshold.overrides() == olds);
        }
        self.analytical_threshold.insert(marker_id, analytical);
        proof {
            let news = self.analytical_threshold.overrides();
            crate::thresholds::lemma_find_key_props(olds, marker_id@);
            let f = find_key(olds, marker_id@);
            if f >= 0 {
                assert(news == olds.update(f, (marker_id@, analytical)));
            } else {
                assert(news == olds.push((marker_id@, analytical)));
            }
            assert forall|i: int| 0 <= i < news.len() implies (#[trigger] news[i]).1.wf() by {
                if f >= 0 {
                    if i == f {
                        assert(news[i] == (marker_id@, analytical));
                    } else {
                        assert(news[i] == olds[i]);
                    }
                } else {
                    if i < olds.len() {
                        assert(news[i] == olds[i]);
                    } else {
                        assert(news[i] == (marker_id@, analytical));
                    }
                }
            }
        }
    }
}

} // verus!
