//! Marker geometry: the allele-defining SNPs of one microhaplotype locus.
//!
//! An `AlleleDefinition` holds a chromosome name and the ascending,
//! de-duplicated genomic offsets (0-based) of the marker's allele-defining
//! SNPs (ADSs).  The offsets stay sorted and unique through every insertion,
//! and each offset's position in the sequence is the slot it occupies in a
//! read's sketch.

use vstd::prelude::*;

verus! {

/// Strictly ascending: sorted with no duplicates.
pub open spec fn sorted_strict(s: Seq<u32>) -> bool {
    forall|i: int, j: int| 0 <= i < j < s.len() ==> s[i] < s[j]
}

/// In a strictly ascending sequence a value occurs at one position only.
pub proof fn lemma_sorted_index_unique(s: Seq<u32>, a: int, b: int)
    requires
        sorted_strict(s),
        0 <= a < s.len(),
        0 <= b < s.len(),
        s[a] == s[b],
    ensures
        a == b,
{
    if a < b {
        assert(s[a] < s[b]);
    } else if b < a {
        assert(s[b] < s[a]);
    }
}

/// Geometry of one marker: its chromosome and the sorted, unique offsets of
/// its ADSs.
#[derive(Debug)]
pub struct AlleleDefinition {
    chromosome: String,
    offsets: Vec<u32>,
}

impl AlleleDefinition {
    /// The marker's ADS offsets, in ascending order.
    pub closed spec fn ads_offsets(&self) -> Seq<u32> {
        self.offsets@
    }

    /// The marker's chromosome name.
    pub closed spec fn spec_chromosome(&self) -> Seq<char> {
        self.chromosome@
    }

    /// The marker's chromosome name.
    pub fn chromosome(&self) -> (r: &String)
        ensures
            r@ == self.spec_chromosome(),
    {
        &self.chromosome
    }

    /// The offsets are strictly ascending after every operation.
    pub open spec fn wf(&self) -> bool {
        sorted_strict(self.ads_offsets())
    }

    /// The position of a registered ADS offset in the sorted sequence; under
    /// `wf` that position is unique.
    pub open spec fn spec_index_of(&self, offset: u32) -> int {
        choose|i: int| 0 <= i < self.ads_offsets().len() && self.ads_offsets()[i] == offset
    }

    /// Initialize an empty definition for the given chromosome.
    pub fn new(chromosome: &str) -> (r: AlleleDefinition)
        ensures
            r.spec_chromosome() == chromosome@,
            r.ads_offsets() == Seq::<u32>::empty(),
            r.wf(),
    {
        let r = AlleleDefinition { chromosome: chromosome.to_owned(), offsets: Vec::new() };
        proof {
            assert(r.ads_offsets() =~= Seq::<u32>::empty());
        }
        r
    }

    /// Register one ADS by its genomic offset.  The offsets are re-sorted
    /// and de-duplicated on every insertion: panels are small and this runs
    /// once at startup, so simplicity wins over efficiency.
    pub fn add_snp_offset(&mut self, offset: u32)
        requires
            old(self).wf(),
        ensures
            final(self).wf(),
            final(self).spec_chromosome() == old(self).spec_chromosome(),
            final(self).ads_offsets().to_set() == old(self).ads_offsets().to_set().insert(
                offset,
            ),
            final(self).ads_offsets().contains(offset),
    {
        let ghost olds = self.offsets@;
        let mut i: usize = 0;
        while i < self.offsets.len() && self.offsets[i] < offset
            invariant
                self.offsets@ == olds,
                i <= olds.len(),
                forall|j: int| 0 <= j < i ==> olds[j] < offset,
            decreases olds.len() - i,
        {
            i = i + 1;
        }
        if i < self.offsets.len() && self.offsets[i] == offset {
            proof {
                assert(olds.contains(offset));
                assert(olds.to_set() =~= olds.to_set().insert(offset));
            }
            return;
        }
        self.offsets.insert(i, offset);
        proof {
            olds.insert_ensures(i as int, offset);
            let news = self.offsets@;
            assert(news == olds.insert(i as int, offset));
            // everything left of the insertion point is smaller, everything
            // right of it is larger
            assert(forall|j: int| i <= j < olds.len() ==> offset < olds[j]) by {
                assert(i < olds.len() ==> offset < olds[i as int]);
                assert(forall|j: int|
                    i < j < olds.len() && i < olds.len() ==> olds[i as int] < olds[j]);
            }
            assert forall|p: int, q: int| 0 <= p < q < news.len() implies news[p] < news[q] by {
                if q < i {
                } else if p < i && q == i {
                    assert(news[p] == olds[p] && news[q] == offset);
                } else if p < i {
                    assert(news[p] == olds[p] && news[q] == olds[q - 1]);
                } else if p == i {
                    assert(news[p] == offset && news[q] == olds[q - 1]);
                } else {
                    assert(news[p] == olds[p - 1] && news[q] == olds[q - 1]);
                }
            }
            assert forall|x: u32| news.contains(x) <==> (olds.contains(x) || x == offset) by {
                if news.contains(x) {
                    let k = choose|k: int| 0 <= k < news.len() && news[k] == x;
                    if k < i {
                        assert(olds[k] == x);
                    } else if k > i {
                        assert(olds[k - 1] == x);
                    }
                }
                if olds.contains(x) {
                    let k = choose|k: int| 0 <= k < olds.len() && olds[k] == x;
                    if k < i {
                        assert(news[k] == x);
                    } else {
                        assert(news[k + 1] == x);
                    }
                }
                if x == offset {
                    assert(news[i as int] == x);
                }
            }
            assert(news.to_set() =~= olds.to_set().insert(offset));
        }
    }

    /// Number of ADSs registered for this marker.
    pub fn num_snps(&self) -> (r: usize)
        ensures
            r == self.ads_offsets().len(),
    {
        self.offsets.len()
    }

    /// The sketch slot of the ADS at the given genomic offset, or nothing
    /// when the offset is not a registered ADS.
    pub fn get_index(&self, offset: u32) -> (r: Option<usize>)
        requires
            self.wf(),
        ensures
            match r {
                Some(i) => i < self.ads_offsets().len() && self.ads_offsets()[i as int] == offset
                    && i == self.spec_index_of(offset),
                None => !self.ads_offsets().contains(offset),
            },
            r is Some <==> self.ads_offsets().contains(offset),
    {
        let mut i: usize = 0;
        while i < self.offsets.len()
            invariant
                self.wf(),
                i <= self.ads_offsets().len(),
                forall|j: int| 0 <= j < i ==> self.ads_offsets()[j] != offset,
            decreases self.ads_offsets().len() - i,
        {
            if self.offsets[i] == offset {
                proof {
                    let j = self.spec_index_of(offset);
                    assert(self.ads_offsets()[i as int] == offset);
                    assert(0 <= j < self.ads_offsets().len() && self.ads_offsets()[j] == offset);
                    lemma_sorted_index_unique(self.ads_offsets(), i as int, j);
                }
                return Some(i);
            }
            i = i + 1;
        }
        None
    }

    /// Whether the given genomic offset is a registered ADS.
    pub fn is_ads(&self, offset: u32) -> (r: bool)
        requires
            self.wf(),
        ensures
            r == self.ads_offsets().contains(offset),
    {
        match self.get_index(offset) {
            Some(_) => true,
            None => false,
        }
    }

    /// Genomic offset of the marker's first ADS.
    pub fn start(&self) -> (r: u32)
        requires
            self.ads_offsets().len() > 0,
        ensures
            r == self.ads_offsets()[0],
    {
        self.offsets[0]
    }

    /// Genomic offset of the marker's last ADS.
    pub fn end(&self) -> (r: u32)
        requires
            self.ads_offsets().len() > 0,
        ensures
            r == self.ads_offsets()[self.ads_offsets().len() - 1],
    {
        self.offsets[self.offsets.len() - 1]
    }

    /// The marker's genomic region as (chromosome, start, end), both ends
    /// inclusive.
    pub fn region(&self) -> (r: (&str, u32, u32))
        requires
            self.ads_offsets().len() > 0,
        ensures
            r.0@ == self.spec_chromosome(),
            r.1 == self.ads_offsets()[0],
            r.2 == self.ads_offsets()[self.ads_offsets().len() - 1],
    {
        (self.chromosome.as_str(), self.start(), self.end())
    }

    /// Build a definition from a chromosome name and any collection of
    /// offsets; duplicates coalesce and the order of arrival is immaterial.
    pub fn from_vector(chromosome: &str, offsets: Vec<u32>) -> (r: AlleleDefinition)
        ensures
            r.wf(),
            r.spec_chromosome() == chromosome@,
            r.ads_offsets().to_set() == offsets@.to_set(),
    {
        let mut def = AlleleDefinition::new(chromosome);
        let mut k: usize = 0;
        proof {
            assert(def.ads_offsets().to_set() =~= offsets@.take(0).to_set());
        }
        while k < offsets.len()
            invariant
                def.wf(),
                def.spec_chromosome() == chromosome@,
                k <= offsets@.len(),
                def.ads_offsets().to_set() == offsets@.take(k as int).to_set(),
            decreases offsets@.len() - k,
        {
            def.add_snp_offset(offsets[k]);
            proof {
                assert(offsets@.take(k + 1) =~= offsets@.take(k as int).push(
                    offsets@[k as int],
                ));
                offsets@.take(k as int).lemma_push_to_set_commute(offsets@[k as int]);
                assert(def.ads_offsets().to_set() =~= offsets@.take(k + 1).to_set());
            }
            k = k + 1;
        }
        proof {
            assert(offsets@.take(offsets@.len() as int) == offsets@);
        }
        def
    }

    /// Number of reference bases spanned by the marker, both ends inclusive;
    /// zero for a definition with no ADSs.
    pub fn extent(&self) -> (r: usize)
        requires
            self.wf(),
            self.ads_offsets().len() > 0 ==> self.ads_offsets()[self.ads_offsets().len() - 1]
                - self.ads_offsets()[0] < usize::MAX,
        ensures
            r == if self.ads_offsets().len() == 0 {
                0int
            } else {
                self.ads_offsets()[self.ads_offsets().len() - 1] - self.ads_offsets()[0] + 1
            },
    {
        if self.offsets.len() == 0 {
            0
        } else {
            let s = self.start();
            let e = self.end();
            proof {
                assert(self.ads_offsets().len() > 1 ==> self.ads_offsets()[0]
                    < self.ads_offsets()[self.ads_offsets().len() - 1]);
            }
            ((e - s) as usize) + 1
        }
    }

    /// The ADS offsets in ascending order.
    pub fn get_offsets(&self) -> (r: &Vec<u32>)
        ensures
            r@ == self.ads_offsets(),
    {
        &self.offsets
    }
}

impl Clone for AlleleDefinition {
    /// A clone carries the same chromosome and offsets.
    fn clone(&self) -> (r: Self)
        ensures
            r.spec_chromosome() == self.spec_chromosome(),
            r.ads_offsets() == self.ads_offsets(),
    {
        let chromosome = self.chromosome.clone();
        let offsets = self.offsets.clone();
        proof {
            assert(offsets@ =~= self.offsets@);
        }
        AlleleDefinition { chromosome, offsets }
    }
}

} // verus!
