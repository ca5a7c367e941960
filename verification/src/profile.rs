//! The profile of one sample: its typing results, keyed and ordered by
//! marker identifier.
//!
//! Results are kept sorted by marker identifier so that the persisted
//! output is deterministic.

use vstd::prelude::*;

use crate::lex::{
    lex_cmp_str, lex_lt, lemma_lex_lt_irreflexive, lemma_lex_lt_transitive,
};
use crate::result::TypingResult;
use crate::thresholds::{
    lemma_lookup_absent, lemma_lookup_found, lemma_lookup_insert, lemma_lookup_update, lookup,
};

verus! {

/// All typing results of one sample, ordered by marker identifier.
#[derive(Debug)]
pub struct MicrohapProfile {
    sample_id: String,
    results: Vec<(String, TypingResult)>,
}

impl MicrohapProfile {
    /// The sample's identifier.
    pub closed spec fn spec_sample_id(&self) -> Seq<char> {
        self.sample_id@
    }

    /// The stored (marker identifier, result) pairs, in ascending order.
    pub closed spec fn results_view(&self) -> Seq<(Seq<char>, TypingResult)> {
        self.results@.map_values(|p: (String, TypingResult)| (p.0@, p.1))
    }

    /// Marker identifiers are strictly ascending, hence unique.
    pub open spec fn wf(&self) -> bool {
        forall|i: int, j: int|
            0 <= i < j < self.results_view().len() ==> lex_lt(
                self.results_view()[i].0,
                self.results_view()[j].0,
            )
    }

    /// The result stored for a marker, if any.
    pub open spec fn spec_get(&self, id: Seq<char>) -> Option<TypingResult> {
        lookup(self.results_view(), id)
    }

    /// An empty profile for one sample.
    pub fn new(sample_id: &str) -> (r: MicrohapProfile)
        ensures
            r.wf(),
            r.spec_sample_id() == sample_id@,
            r.results_view() == Seq::<(Seq<char>, TypingResult)>::empty(),
    {
        let r = MicrohapProfile { sample_id: sample_id.to_owned(), results: Vec::new() };
        proof {
            assert(r.results_view() =~= Seq::<(Seq<char>, TypingResult)>::empty());
        }
        r
    }

    /// Store the result for one marker, replacing any earlier result for
    /// the same marker and keeping the identifiers in ascending order.
    pub fn add(&mut self, mhid: &str, result: TypingResult)
        requires
            old(self).wf(),
        ensures
            final(self).wf(),
            final(self).spec_sample_id() == old(self).spec_sample_id(),
            forall|k: Seq<char>| #[trigger] lookup(final(self).results_view(), k) == if k
                == mhid@ {
                Some(result)
            } else {
                lookup(old(self).results_view(), k)
            },
    {
        let ghost olds = self.results_view();
        let mut i: usize = 0;
        while i < self.results.len()
            invariant
                self.wf(),
                self.results_view() == olds,
                olds == old(self).results_view(),
                self.spec_sample_id() == old(self).spec_sample_id(),
                olds.len() == self.results@.len(),
                i <= olds.len(),
                forall|j: int| 0 <= j < i ==> lex_lt(#[trigger] olds[j].0, mhid@),
            decreases olds.len() - i,
        {
            let ord = lex_cmp_str(self.results[i].0.as_str(), mhid);
            if matches!(ord, core::cmp::Ordering::Equal) {
                proof {
                    assert forall|j: int| 0 <= j < i implies olds[j].0 != mhid@ by {
                        lemma_lex_lt_irreflexive(mhid@);
                    }
                }
                let name = self.results[i].0.clone();
                self.results[i] = (name, result);
                proof {
                    assert(self.results_view()[i as int].1 == result);
                    assert(self.results_view() =~= olds.update(
                        i as int,
                        (olds[i as int].0, result),
                    ));
                    assert forall|k: Seq<char>| #[trigger] lookup(self.results_view(), k) == (if k
                        == mhid@ {
                        Some(result)
                    } else {
                        lookup(olds, k)
                    }) by {
                        lemma_lookup_update(olds, i as int, result, k);
                    }
                    assert forall|p: int, q: int|
                        0 <= p < q < self.results_view().len() implies lex_lt(
                        self.results_view()[p].0,
                        self.results_view()[q].0,
                    ) by {
                        assert(self.results_view()[p].0 == olds[p].0);
                        assert(self.results_view()[q].0 == olds[q].0);
                    }
                }
                return;
            }
            if matches!(ord, core::cmp::Ordering::Greater) {
                proof {
                    assert(lex_lt(mhid@, olds[i as int].0));
                    assert forall|j: int| 0 <= j < i implies olds[j].0 != mhid@ by {
                        lemma_lex_lt_irreflexive(mhid@);
                    }
                }
                self.results.insert(i, (mhid.to_owned(), result));
                proof {
                    lemma_profile_insert_facts(olds, i as int, mhid@, result);
                    assert(self.results_view() =~= olds.insert(i as int, (mhid@, result)));
                }
                return;
            }
            i = i + 1;
        }
        proof {
            assert forall|j: int| 0 <= j < olds.len() implies olds[j].0 != mhid@ by {
                lemma_lex_lt_irreflexive(mhid@);
            }
        }
        self.results.insert(self.results.len(), (mhid.to_owned(), result));
        proof {
            lemma_profile_insert_facts(olds, olds.len() as int, mhid@, result);
            assert(self.results_view() =~= olds.insert(olds.len() as int, (mhid@, result)));
        }
    }

    /// The result stored for a marker.
    pub fn get(&self, mhid: &str) -> (r: Option<&TypingResult>)
        ensures
            match r {
                Some(res) => self.spec_get(mhid@) == Some(*res),
                None => self.spec_get(mhid@) is None,
            },
    {
        let key = mhid.to_owned();
        let mut i: usize = 0;
        while i < self.results.len()
            invariant
                key@ == mhid@,
                i <= self.results_view().len(),
                self.results_view().len() == self.results@.len(),
                forall|j: int| 0 <= j < i ==> self.results_view()[j].0 != mhid@,
            decreases self.results_view().len() - i,
        {
            if self.results[i].0 == key {
                proof {
                    lemma_lookup_found(self.results_view(), i as int);
                }
                return Some(&self.results[i].1);
            }
            i = i + 1;
        }
        proof {
            lemma_lookup_absent(self.results_view(), mhid@);
        }
        None
    }

    /// The sample's identifier.
    pub fn sample_id(&self) -> (r: &String)
        ensures
            r@ == self.spec_sample_id(),
    {
        &self.sample_id
    }

    /// The stored results, in ascending marker order.
    pub fn results(&self) -> (r: &Vec<(String, TypingResult)>)
        ensures
            r@.len() == self.results_view().len(),
            forall|i: int| 0 <= i < r@.len() ==> (#[trigger] r@[i].0)@ == self.results_view()[i].0
                && r@[i].1 == self.results_view()[i].1,
    {
        &self.results
    }

    /// Number of markers with a stored result.
    pub fn len(&self) -> (r: usize)
        ensures
            r == self.results_view().len(),
    {
        self.results.len()
    }
}

/// Inserting a result at the position where its identifier belongs keeps
/// the profile sorted and changes only that identifier's lookup.
proof fn lemma_profile_insert_facts(
    s: Seq<(Seq<char>, TypingResult)>,
    i: int,
    id: Seq<char>,
    result: TypingResult,
)
    requires
        0 <= i <= s.len(),
        forall|p: int, q: int| 0 <= p < q < s.len() ==> lex_lt(s[p].0, s[q].0),
        forall|j: int| 0 <= j < i ==> lex_lt(#[trigger] s[j].0, id),
        i < s.len() ==> lex_lt(id, s[i].0),
    ensures
        forall|k: Seq<char>| #[trigger] lookup(s.insert(i, (id, result)), k) == if k == id {
            Some(result)
        } else {
            lookup(s, k)
        },
        forall|p: int, q: int|
            0 <= p < q < s.insert(i, (id, result)).len() ==> lex_lt(
                s.insert(i, (id, result))[p].0,
                s.insert(i, (id, result))[q].0,
            ),
{
    let t = s.insert(i, (id, result));
    s.insert_ensures(i, (id, result));
    assert forall|j: int| 0 <= j < i implies s[j].0 != id by {
        lemma_lex_lt_irreflexive(id);
    }
    assert forall|k: Seq<char>| #[trigger] lookup(t, k) == (if k == id {
        Some(result)
    } else {
        lookup(s, k)
    }) by {
        lemma_lookup_insert(s, i, (id, result), k);
    }
    assert forall|p: int, q: int| 0 <= p < q < t.len() implies lex_lt(t[p].0, t[q].0) by {
        let x = t[p].0;
        let y = t[q].0;
        if q < i {
        } else if p < i && q == i {
            assert(x == s[p].0 && y == id);
        } else if p < i {
            assert(x == s[p].0 && y == s[q - 1].0);
        } else if p == i {
            assert(x == id && y == s[q - 1].0);
            assert(lex_lt(id, s[i].0));
            if q - 1 > i {
                lemma_lex_lt_transitive(id, s[i].0, s[q - 1].0);
            }
        } else {
            assert(x == s[p - 1].0 && y == s[q - 1].0);
        }
    }
}

} // verus!
