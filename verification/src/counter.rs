//! Tally of complete read sketches.
//!
//! A `ReadHapCounter` maps each observed sketch to its occurrence count.  The
//! entries are kept sorted by the lexicographic order of the sketches, so the
//! tally has one canonical form for any multiset of observations and the keys
//! come out in a deterministic order.

use vstd::prelude::*;

use crate::lex::{
    lex_lt, lemma_lex_lt_asymmetric, lemma_lex_lt_irreflexive, lemma_lex_lt_transitive,
};
use crate::read::ReadHaplotype;

verus! {

/// The view of an entry vector: each sketch with its count.
pub open spec fn entries_view(es: Seq<(ReadHaplotype, u64)>) -> Seq<(Seq<char>, u64)> {
    es.map_values(|p: (ReadHaplotype, u64)| (p.0@, p.1))
}

/// The views of a sketch vector.
pub open spec fn haps_view(hs: Seq<ReadHaplotype>) -> Seq<Seq<char>> {
    hs.map_values(|h: ReadHaplotype| h@)
}

/// The sketches of a tally, in entry order.
pub open spec fn keys_of(s: Seq<(Seq<char>, u64)>) -> Seq<Seq<char>> {
    s.map_values(|p: (Seq<char>, u64)| p.0)
}

/// Entries are strictly ascending by sketch, hence the sketches are unique.
pub open spec fn entries_sorted(s: Seq<(Seq<char>, u64)>) -> bool {
    forall|i: int, j: int| 0 <= i < j < s.len() ==> lex_lt(s[i].0, s[j].0)
}

/// The count recorded for a sketch: the sum of the counts of every entry
/// that carries it (a sorted tally holds at most one such entry).
pub open spec fn count_in(s: Seq<(Seq<char>, u64)>, k: Seq<char>) -> nat
    decreases s.len(),
{
    if s.len() == 0 {
        0
    } else {
        (if s.last().0 == k {
            s.last().1 as nat
        } else {
            0
        }) + count_in(s.drop_last(), k)
    }
}

/// The sum of all counts in the tally.
pub open spec fn total_of(s: Seq<(Seq<char>, u64)>) -> nat
    decreases s.len(),
{
    if s.len() == 0 {
        0
    } else {
        s.last().1 as nat + total_of(s.drop_last())
    }
}

/// Whether some entry carries the sketch.
pub open spec fn has_key(s: Seq<(Seq<char>, u64)>, k: Seq<char>) -> bool {
    exists|i: int| 0 <= i < s.len() && s[i].0 == k
}

/// The entries whose count reaches the threshold, in their original order.
pub open spec fn filter_ge(s: Seq<(Seq<char>, u64)>, min: nat) -> Seq<(Seq<char>, u64)>
    decreases s.len(),
{
    if s.len() == 0 {
        Seq::empty()
    } else {
        filter_ge(s.drop_last(), min) + if s.last().1 >= min {
            seq![s.last()]
        } else {
            Seq::empty()
        }
    }
}

pub proof fn lemma_count_le_total(s: Seq<(Seq<char>, u64)>, k: Seq<char>)
    ensures
        count_in(s, k) <= total_of(s),
    decreases s.len(),
{
    if s.len() > 0 {
        lemma_count_le_total(s.drop_last(), k);
    }
}

pub proof fn lemma_absent_count(s: Seq<(Seq<char>, u64)>, k: Seq<char>)
    requires
        !has_key(s, k),
    ensures
        count_in(s, k) == 0,
    decreases s.len(),
{
    if s.len() > 0 {
        assert(s.last().0 != k);
        assert(!has_key(s.drop_last(), k)) by {
            if has_key(s.drop_last(), k) {
                let i = choose|i: int| 0 <= i < s.drop_last().len() && s.drop_last()[i].0 == k;
                assert(s[i].0 == k);
            }
        }
        lemma_absent_count(s.drop_last(), k);
    }
}

/// In a sorted tally the count recorded for an entry's sketch is exactly
/// that entry's count.
pub proof fn lemma_unique_count(s: Seq<(Seq<char>, u64)>, i: int)
    requires
        entries_sorted(s),
        0 <= i < s.len(),
    ensures
        count_in(s, s[i].0) == s[i].1 as nat,
    decreases s.len(),
{
    let k = s[i].0;
    if i == s.len() - 1 {
        assert(!has_key(s.drop_last(), k)) by {
            if has_key(s.drop_last(), k) {
                let j = choose|j: int| 0 <= j < s.drop_last().len() && s.drop_last()[j].0 == k;
                assert(lex_lt(s[j].0, s[i].0));
                lemma_lex_lt_irreflexive(k);
            }
        }
        lemma_absent_count(s.drop_last(), k);
    } else {
        assert(lex_lt(k, s.last().0));
        assert(s.last().0 != k) by {
            lemma_lex_lt_irreflexive(k);
        }
        assert(entries_sorted(s.drop_last()));
        assert(s.drop_last()[i] == s[i]);
        lemma_unique_count(s.drop_last(), i);
    }
}

pub proof fn lemma_count_in_insert(
    s: Seq<(Seq<char>, u64)>,
    i: int,
    p: (Seq<char>, u64),
    k: Seq<char>,
)
    requires
        0 <= i <= s.len(),
    ensures
        count_in(s.insert(i, p), k) == count_in(s, k) + if p.0 == k {
            p.1 as nat
        } else {
            0
        },
    decreases s.len(),
{
    let t = s.insert(i, p);
    s.insert_ensures(i, p);
    if i == s.len() {
        assert(t.last() == p);
        assert(t.drop_last() =~= s);
    } else {
        assert(t.last() == s.last());
        assert(t.drop_last() =~= s.drop_last().insert(i, p));
        lemma_count_in_insert(s.drop_last(), i, p, k);
    }
}

pub proof fn lemma_total_insert(s: Seq<(Seq<char>, u64)>, i: int, p: (Seq<char>, u64))
    requires
        0 <= i <= s.len(),
    ensures
        total_of(s.insert(i, p)) == total_of(s) + p.1 as nat,
    decreases s.len(),
{
    let t = s.insert(i, p);
    s.insert_ensures(i, p);
    if i == s.len() {
        assert(t.last() == p);
        assert(t.drop_last() =~= s);
    } else {
        assert(t.last() == s.last());
        assert(t.drop_last() =~= s.drop_last().insert(i, p));
        lemma_total_insert(s.drop_last(), i, p);
    }
}

pub proof fn lemma_count_in_update(s: Seq<(Seq<char>, u64)>, i: int, c: u64, k: Seq<char>)
    requires
        0 <= i < s.len(),
    ensures
        count_in(s.update(i, (s[i].0, c)), k) == count_in(s, k) - (if s[i].0 == k {
            s[i].1 as nat
        } else {
            0
        }) + (if s[i].0 == k {
            c as nat
        } else {
            0
        }),
    decreases s.len(),
{
    let t = s.update(i, (s[i].0, c));
    if i == s.len() - 1 {
        assert(t.last() == (s[i].0, c));
        assert(t.drop_last() =~= s.drop_last());
    } else {
        assert(t.last() == s.last());
        assert(t.drop_last() =~= s.drop_last().update(i, (s.drop_last()[i].0, c)));
        lemma_count_in_update(s.drop_last(), i, c, k);
    }
}

pub proof fn lemma_total_update(s: Seq<(Seq<char>, u64)>, i: int, c: u64)
    requires
        0 <= i < s.len(),
    ensures
        total_of(s.update(i, (s[i].0, c))) == total_of(s) - s[i].1 as nat + c as nat,
    decreases s.len(),
{
    let t = s.update(i, (s[i].0, c));
    if i == s.len() - 1 {
        assert(t.last() == (s[i].0, c));
        assert(t.drop_last() =~= s.drop_last());
    } else {
        assert(t.last() == s.last());
        assert(t.drop_last() =~= s.drop_last().update(i, (s.drop_last()[i].0, c)));
        lemma_total_update(s.drop_last(), i, c);
    }
}

pub proof fn lemma_total_take_step(s: Seq<(Seq<char>, u64)>, i: int)
    requires
        0 <= i < s.len(),
    ensures
        total_of(s.take(i + 1)) == total_of(s.take(i)) + s[i].1 as nat,
{
    assert(s.take(i + 1).last() == s[i]);
    assert(s.take(i + 1).drop_last() =~= s.take(i));
}

pub proof fn lemma_total_take_le(s: Seq<(Seq<char>, u64)>, i: int)
    requires
        0 <= i <= s.len(),
    ensures
        total_of(s.take(i)) <= total_of(s),
    decreases s.len() - i,
{
    if i == s.len() {
        assert(s.take(i) =~= s);
    } else {
        lemma_total_take_step(s, i);
        lemma_total_take_le(s, i + 1);
    }
}

/// Filtering keeps the order, keeps only entries of the original tally, and
/// keeps only counts that reach the threshold.
pub proof fn lemma_filter_ge_props(s: Seq<(Seq<char>, u64)>, min: nat)
    ensures
        entries_sorted(s) ==> entries_sorted(filter_ge(s, min)),
        forall|i: int|
            0 <= i < filter_ge(s, min).len() ==> exists|j: int|
                0 <= j < s.len() && s[j] == #[trigger] filter_ge(s, min)[i],
        forall|i: int| 0 <= i < filter_ge(s, min).len() ==> #[trigger] filter_ge(s, min)[i].1
            >= min,
        total_of(filter_ge(s, min)) <= total_of(s),
    decreases s.len(),
{
    if s.len() > 0 {
        let s1 = s.drop_last();
        let f = filter_ge(s, min);
        let f1 = filter_ge(s1, min);
        assert(entries_sorted(s) ==> entries_sorted(s1));
        lemma_filter_ge_props(s1, min);
        assert forall|i: int| 0 <= i < f.len() implies exists|j: int|
            0 <= j < s.len() && s[j] == #[trigger] f[i] by {
            if i < f1.len() {
                assert(f[i] == f1[i]);
                let j = choose|j: int| 0 <= j < s1.len() && s1[j] == f1[i];
                assert(s[j] == f[i]);
            } else {
                assert(f[i] == s.last());
                assert(s[s.len() - 1] == f[i]);
            }
        }
        if s.last().1 >= min {
            assert(f.len() == f1.len() + 1);
            assert(f.last() == s.last());
            assert(f.drop_last() =~= f1);
            assert(total_of(f) == s.last().1 as nat + total_of(f1));
        } else {
            assert(f =~= f1);
        }
        if entries_sorted(s) {
            assert forall|p: int, q: int| 0 <= p < q < f.len() implies lex_lt(
                f[p].0,
                f[q].0,
            ) by {
                if q < f1.len() {
                } else if q == f.len() - 1 && f.len() > f1.len() {
                    assert(f[q] == s.last());
                    assert(f[p] == f1[p]);
                    let j = choose|j: int| 0 <= j < s1.len() && s1[j] == f1[p];
                    assert(s[j] == f[p]);
                    assert(lex_lt(s[j].0, s.last().0));
                }
            }
        }
    }
}

/// Filtering at a threshold every entry already reaches changes nothing.
pub proof fn lemma_filter_ge_identity(s: Seq<(Seq<char>, u64)>, min: nat)
    requires
        forall|i: int| 0 <= i < s.len() ==> #[trigger] s[i].1 >= min,
    ensures
        filter_ge(s, min) == s,
    decreases s.len(),
{
    if s.len() > 0 {
        assert(forall|i: int| 0 <= i < s.drop_last().len() ==> #[trigger] s.drop_last()[i].1
            >= min);
        lemma_filter_ge_identity(s.drop_last(), min);
        assert(filter_ge(s, min) =~= s);
    } else {
        assert(filter_ge(s, min) =~= s);
    }
}

/// A higher threshold never keeps more entries.
pub proof fn lemma_filter_ge_monotone(s: Seq<(Seq<char>, u64)>, m1: nat, m2: nat)
    requires
        m1 <= m2,
    ensures
        filter_ge(s, m2).len() <= filter_ge(s, m1).len(),
    decreases s.len(),
{
    if s.len() > 0 {
        lemma_filter_ge_monotone(s.drop_last(), m1, m2);
    }
}

/// Multiset tally of complete read sketches, in canonical sorted form.
#[derive(Debug)]
pub struct ReadHapCounter {
    entries: Vec<(ReadHaplotype, u64)>,
}

impl View for ReadHapCounter {
    type V = Seq<(Seq<char>, u64)>;

    closed spec fn view(&self) -> Seq<(Seq<char>, u64)> {
        entries_view(self.entries@)
    }
}

impl ReadHapCounter {
    /// Entries stay sorted by sketch and the counts sum within machine
    /// bounds.
    pub open spec fn wf(&self) -> bool {
        entries_sorted(self@) && total_of(self@) <= u64::MAX
    }

    /// An empty tally.
    pub fn new() -> (r: ReadHapCounter)
        ensures
            r@ == Seq::<(Seq<char>, u64)>::empty(),
            r.wf(),
    {
        let r = ReadHapCounter { entries: Vec::new() };
        proof {
            assert(r@ =~= Seq::<(Seq<char>, u64)>::empty());
        }
        r
    }

    /// Number of distinct sketches in the tally.
    pub fn len(&self) -> (r: usize)
        ensures
            r == self@.len(),
    {
        self.entries.len()
    }

    /// The count recorded for a sketch, or nothing when the sketch was never
    /// recorded.
    pub fn get(&self, hap: &ReadHaplotype) -> (r: Option<u64>)
        requires
            self.wf(),
        ensures
            match r {
                Some(c) => has_key(self@, hap@) && c as nat == count_in(self@, hap@),
                None => !has_key(self@, hap@),
            },
    {
        let mut i: usize = 0;
        while i < self.entries.len()
            invariant
                self.wf(),
                i <= self@.len(),
                forall|j: int| 0 <= j < i ==> self@[j].0 != hap@,
            decreases self@.len() - i,
        {
            if matches!(self.entries[i].0.cmp_lex(hap), core::cmp::Ordering::Equal) {
                proof {
                    lemma_unique_count(self@, i as int);
                }
                return Some(self.entries[i].1);
            }
            i = i + 1;
        }
        proof {
            if has_key(self@, hap@) {
                let j = choose|j: int| 0 <= j < self@.len() && self@[j].0 == hap@;
            }
        }
        None
    }

    /// Position of the first entry whose sketch is not below `hap`, together
    /// with whether that entry carries `hap` itself.
    fn find_slot(&self, hap: &ReadHaplotype) -> (r: (usize, bool))
        requires
            self.wf(),
        ensures
            r.0 <= self@.len(),
            forall|j: int| 0 <= j < r.0 ==> lex_lt(self@[j].0, hap@),
            r.1 ==> r.0 < self@.len() && self@[r.0 as int].0 == hap@,
            !r.1 ==> !has_key(self@, hap@),
            !r.1 && r.0 < self@.len() ==> lex_lt(hap@, self@[r.0 as int].0),
    {
        let mut i: usize = 0;
        while i < self.entries.len()
            invariant
                self.wf(),
                i <= self@.len(),
                forall|j: int| 0 <= j < i ==> lex_lt(self@[j].0, hap@),
            decreases self@.len() - i,
        {
            let ord = self.entries[i].0.cmp_lex(hap);
            if matches!(ord, core::cmp::Ordering::Equal) {
                return (i, true);
            }
            if matches!(ord, core::cmp::Ordering::Greater) {
                proof {
                    if has_key(self@, hap@) {
                        let j = choose|j: int| 0 <= j < self@.len() && self@[j].0 == hap@;
                        if j < i {
                            lemma_lex_lt_irreflexive(hap@);
                        } else if j > i {
                            lemma_lex_lt_transitive(hap@, self@[i as int].0, self@[j].0);
                            lemma_lex_lt_irreflexive(hap@);
                        }
                    }
                }
                return (i, false);
            }
            i = i + 1;
        }
        proof {
            if has_key(self@, hap@) {
                let j = choose|j: int| 0 <= j < self@.len() && self@[j].0 == hap@;
                lemma_lex_lt_irreflexive(hap@);
            }
        }
        (self.entries.len(), false)
    }

    /// Record one more observation of the given sketch.
    pub fn increment(&mut self, hap: &ReadHaplotype)
        requires
            old(self).wf(),
            total_of(old(self)@) < u64::MAX,
        ensures
            final(self).wf(),
            total_of(final(self)@) == total_of(old(self)@) + 1,
            forall|k: Seq<char>| #[trigger] count_in(final(self)@, k) == count_in(old(self)@, k)
                + if k == hap@ {
                1nat
            } else {
                0nat
            },
            forall|k: Seq<char>| #[trigger] has_key(final(self)@, k) <==> (has_key(old(self)@, k)
                || k == hap@),
    {
        let ghost olds = self@;
        let (i, present) = self.find_slot(hap);
        if present {
            let c = self.entries[i].1;
            proof {
                lemma_unique_count(olds, i as int);
                lemma_count_le_total(olds, hap@);
            }
            let key = self.entries[i].0.clone();
            self.entries[i] = (key, c + 1);
            proof {
                assert(self@ =~= olds.update(i as int, (olds[i as int].0, (c + 1) as u64)));
                lemma_total_update(olds, i as int, (c + 1) as u64);
                assert forall|k: Seq<char>| #[trigger] count_in(self@, k) == count_in(olds, k)
                    + if k == hap@ {
                    1nat
                } else {
                    0nat
                } by {
                    lemma_count_in_update(olds, i as int, (c + 1) as u64, k);
                    if k == hap@ {
                    } else {
                        assert(olds[i as int].0 != k);
                    }
                }
                assert forall|k: Seq<char>| #[trigger] has_key(self@, k) <==> (has_key(olds, k)
                    || k == hap@) by {
                    if has_key(olds, k) {
                        let j = choose|j: int| 0 <= j < olds.len() && olds[j].0 == k;
                        assert(self@[j].0 == k);
                    }
                    if has_key(self@, k) {
                        let j = choose|j: int| 0 <= j < self@.len() && self@[j].0 == k;
                        assert(olds[j].0 == k);
                    }
                    if k == hap@ {
                        assert(self@[i as int].0 == k);
                    }
                }
                assert(entries_sorted(self@)) by {
                    assert(forall|p: int| 0 <= p < olds.len() ==> self@[p].0 == olds[p].0);
                }
            }
        } else {
            self.entries.insert(i, (hap.clone(), 1));
            proof {
                assert(self@ =~= olds.insert(i as int, (hap@, 1u64)));
                lemma_total_insert(olds, i as int, (hap@, 1u64));
                assert forall|k: Seq<char>| #[trigger] count_in(self@, k) == count_in(olds, k)
                    + if k == hap@ {
                    1nat
                } else {
                    0nat
                } by {
                    lemma_count_in_insert(olds, i as int, (hap@, 1u64), k);
                    if k == hap@ {
                        lemma_absent_count(olds, k);
                    }
                }
                olds.insert_ensures(i as int, (hap@, 1u64));
                assert forall|k: Seq<char>| #[trigger] has_key(self@, k) <==> (has_key(olds, k)
                    || k == hap@) by {
                    if has_key(olds, k) {
                        let j = choose|j: int| 0 <= j < olds.len() && olds[j].0 == k;
                        if j < i {
                            assert(self@[j].0 == k);
                        } else {
                            assert(self@[j + 1].0 == k);
                        }
                    }
                    if has_key(self@, k) && k != hap@ {
                        let j = choose|j: int| 0 <= j < self@.len() && self@[j].0 == k;
                        if j < i {
                            assert(olds[j].0 == k);
                        } else if j > i {
                            assert(olds[j - 1].0 == k);
                        }
                    }
                    if k == hap@ {
                        assert(self@[i as int].0 == k);
                    }
                }
                assert(entries_sorted(self@)) by {
                    assert forall|p: int, q: int| 0 <= p < q < self@.len() implies lex_lt(
                        self@[p].0,
                        self@[q].0,
                    ) by {
                        let x = self@[p].0;
                        let y = self@[q].0;
                        if q < i {
                        } else if p < i && q == i {
                            assert(x == olds[p].0 && y == hap@);
                        } else if p < i {
                            assert(x == olds[p].0 && y == olds[q - 1].0);
                        } else if p == i {
                            assert(x == hap@ && y == olds[q - 1].0);
                            assert(lex_lt(hap@, olds[i as int].0));
                            if q - 1 > i {
                                lemma_lex_lt_transitive(hap@, olds[i as int].0, olds[q - 1].0);
                            }
                        } else {
                            assert(x == olds[p - 1].0 && y == olds[q - 1].0);
                        }
                    }
                }
            }
        }
    }

    /// Set the count recorded for a sketch, adding the entry if need be.
    pub fn insert(&mut self, hap: &ReadHaplotype, count: u64)
        requires
            old(self).wf(),
            total_of(old(self)@) - count_in(old(self)@, hap@) + count <= u64::MAX,
        ensures
            final(self).wf(),
            total_of(final(self)@) == total_of(old(self)@) - count_in(old(self)@, hap@)
                + count as nat,
            forall|k: Seq<char>| #[trigger] count_in(final(self)@, k) == if k == hap@ {
                count as nat
            } else {
                count_in(old(self)@, k)
            },
            forall|k: Seq<char>| #[trigger] has_key(final(self)@, k) <==> (has_key(old(self)@, k)
                || k == hap@),
    {
        let ghost olds = self@;
        let (i, present) = self.find_slot(hap);
        if present {
            proof {
                lemma_unique_count(olds, i as int);
            }
            let key = self.entries[i].0.clone();
            self.entries[i] = (key, count);
            proof {
                assert(self@ =~= olds.update(i as int, (olds[i as int].0, count)));
                lemma_total_update(olds, i as int, count);
                assert forall|k: Seq<char>| #[trigger] count_in(self@, k) == (if k == hap@ {
                    count as nat
                } else {
                    count_in(olds, k)
                }) by {
                    lemma_count_in_update(olds, i as int, count, k);
                    if k != hap@ {
                        assert(olds[i as int].0 != k);
                    }
                }
                assert forall|k: Seq<char>| #[trigger] has_key(self@, k) <==> (has_key(olds, k)
                    || k == hap@) by {
                    if has_key(olds, k) {
                        let j = choose|j: int| 0 <= j < olds.len() && olds[j].0 == k;
                        assert(self@[j].0 == k);
                    }
                    if has_key(self@, k) {
                        let j = choose|j: int| 0 <= j < self@.len() && self@[j].0 == k;
                        assert(olds[j].0 == k);
                    }
                    if k == hap@ {
                        assert(self@[i as int].0 == k);
                    }
                }
                assert(entries_sorted(self@)) by {
                    assert(forall|p: int| 0 <= p < olds.len() ==> self@[p].0 == olds[p].0);
                }
            }
        } else {
            proof {
                lemma_absent_count(olds, hap@);
            }
            self.entries.insert(i, (hap.clone(), count));
            proof {
                assert(self@ =~= olds.insert(i as int, (hap@, count)));
                lemma_total_insert(olds, i as int, (hap@, count));
                assert forall|k: Seq<char>| #[trigger] count_in(self@, k) == (if k == hap@ {
                    count as nat
                } else {
                    count_in(olds, k)
                }) by {
                    lemma_count_in_insert(olds, i as int, (hap@, count), k);
                }
                olds.insert_ensures(i as int, (hap@, count));
                assert forall|k: Seq<char>| #[trigger] has_key(self@, k) <==> (has_key(olds, k)
                    || k == hap@) by {
                    if has_key(olds, k) {
                        let j = choose|j: int| 0 <= j < olds.len() && olds[j].0 == k;
                        if j < i {
                            assert(self@[j].0 == k);
                        } else {
                            assert(self@[j + 1].0 == k);
                        }
                    }
                    if has_key(self@, k) && k != hap@ {
                        let j = choose|j: int| 0 <= j < self@.len() && self@[j].0 == k;
                        if j < i {
                            assert(olds[j].0 == k);
                        } else if j > i {
                            assert(olds[j - 1].0 == k);
                        }
                    }
                    if k == hap@ {
                        assert(self@[i as int].0 == k);
                    }
                }
                assert(entries_sorted(self@)) by {
                    assert forall|p: int, q: int| 0 <= p < q < self@.len() implies lex_lt(
                        self@[p].0,
                        self@[q].0,
                    ) by {
                        let x = self@[p].0;
                        let y = self@[q].0;
                        if q < i {
                        } else if p < i && q == i {
                            assert(x == olds[p].0 && y == hap@);
                        } else if p < i {
                            assert(x == olds[p].0 && y == olds[q - 1].0);
                        } else if p == i {
                            assert(x == hap@ && y == olds[q - 1].0);
                            assert(lex_lt(hap@, olds[i as int].0));
                            if q - 1 > i {
                                lemma_lex_lt_transitive(hap@, olds[i as int].0, olds[q - 1].0);
                            }
                        } else {
                            assert(x == olds[p - 1].0 && y == olds[q - 1].0);
                        }
                    }
                }
            }
        }
    }

    /// The sum of all counts.
    pub fn total_count(&self) -> (r: u64)
        requires
            self.wf(),
        ensures
            r as nat == total_of(self@),
    {
        let mut sum: u64 = 0;
        let mut i: usize = 0;
        while i < self.entries.len()
            invariant
                self.wf(),
                i <= self@.len(),
                sum as nat == total_of(self@.take(i as int)),
            decreases self@.len() - i,
        {
            proof {
                lemma_total_take_step(self@, i as int);
                lemma_total_take_le(self@, i + 1);
            }
            sum = sum + self.entries[i].1;
            i = i + 1;
        }
        proof {
            assert(self@.take(self@.len() as int) =~= self@);
        }
        sum
    }

    /// The tally restricted to sketches whose count reaches the threshold.
    pub fn filtered(&self, min: u64) -> (r: ReadHapCounter)
        requires
            self.wf(),
        ensures
            r@ == filter_ge(self@, min as nat),
            r.wf(),
    {
        let mut entries: Vec<(ReadHaplotype, u64)> = Vec::new();
        let mut i: usize = 0;
        while i < self.entries.len()
            invariant
                self.wf(),
                i <= self@.len(),
                entries_view(entries@) == filter_ge(self@.take(i as int), min as nat),
            decreases self@.len() - i,
    {
            let ghost prev = entries_view(entries@);
            if self.entries[i].1 >= min {
                let key = self.entries[i].0.clone();
                entries.push((key, self.entries[i].1));
            }
            proof {
                assert(self@.take(i + 1).last() == self@[i as int]);
                assert(self@.take(i + 1).drop_last() =~= self@.take(i as int));
                assert(entries_view(entries@) =~~= filter_ge(self@.take(i + 1), min as nat));
            }
            i = i + 1;
        }
        proof {
            assert(self@.take(self@.len() as int) =~= self@);
            lemma_filter_ge_props(self@, min as nat);
        }
        let r = ReadHapCounter { entries };
        r
    }

    /// The sketches of the tally, in ascending order.
    pub fn keys(&self) -> (r: Vec<ReadHaplotype>)
        ensures
            haps_view(r@) == keys_of(self@),
    {
        let mut out: Vec<ReadHaplotype> = Vec::new();
        let mut i: usize = 0;
        while i < self.entries.len()
            invariant
                i <= self@.len(),
                out@.len() == i,
                haps_view(out@) == keys_of(self@.take(i as int)),
            decreases self@.len() - i,
        {
            let ghost prev = out@;
            out.push(self.entries[i].0.clone());
            proof {
                assert forall|j: int| 0 <= j < i + 1 implies haps_view(out@)[j] == keys_of(
                    self@.take(i + 1),
                )[j] by {
                    assert(haps_view(out@)[j] == out@[j]@);
                    assert(keys_of(self@.take(i + 1))[j] == self@[j].0);
                    if j < i {
                        assert(out@[j] == prev[j]);
                        assert(haps_view(prev)[j] == prev[j]@);
                        assert(keys_of(self@.take(i as int))[j] == self@[j].0);
                    }
                }
                assert(haps_view(out@) =~~= keys_of(self@.take(i + 1)));
            }
            i = i + 1;
        }
        proof {
            assert(self@.take(self@.len() as int) =~= self@);
        }
        out
    }

    /// The entries of the tally, in ascending sketch order.
    pub fn entries(&self) -> (r: &Vec<(ReadHaplotype, u64)>)
        ensures
            entries_view(r@) == self@,
            r@.len() == self@.len(),
    {
        &self.entries
    }
}

impl Clone for ReadHapCounter {
    /// A clone carries the same entries.
    fn clone(&self) -> (r: Self)
        ensures
            r@ == self@,
    {
        let mut entries: Vec<(ReadHaplotype, u64)> = Vec::new();
        let mut i: usize = 0;
        while i < self.entries.len()
            invariant
                i <= self@.len(),
                entries@.len() == i,
                entries_view(entries@) == self@.take(i as int),
            decreases self@.len() - i,
        {
            let ghost prev = entries@;
            entries.push((self.entries[i].0.clone(), self.entries[i].1));
            proof {
                assert forall|j: int| 0 <= j < i + 1 implies entries_view(entries@)[j] == self@.take(
                    i + 1,
                )[j] by {
                    assert(entries_view(entries@)[j] == (entries@[j].0@, entries@[j].1));
                    if j < i {
                        assert(entries@[j] == prev[j]);
                        assert(entries_view(prev)[j] == (prev[j].0@, prev[j].1));
                    }
                }
                assert(entries_view(entries@) =~~= self@.take(i + 1));
            }
            i = i + 1;
        }
        proof {
            assert(self@.take(self@.len() as int) =~= self@);
        }
        ReadHapCounter { entries }
    }
}

/// The sketches of a sorted tally come out in ascending order.
pub proof fn lemma_keys_of_sorted(s: Seq<(Seq<char>, u64)>)
    requires
        entries_sorted(s),
    ensures
        forall|i: int, j: int|
            0 <= i < j < keys_of(s).len() ==> lex_lt(keys_of(s)[i], keys_of(s)[j]),
{
    assert forall|i: int, j: int|
        0 <= i < j < keys_of(s).len() implies lex_lt(keys_of(s)[i], keys_of(s)[j]) by {
        assert(keys_of(s)[i] == s[i].0);
        assert(keys_of(s)[j] == s[j].0);
    }
}

/// A sorted tally is canonical: two sorted tallies that hold the same
/// sketches with the same counts are identical, whatever order the
/// observations arrived in.
pub proof fn lemma_counter_canonical(c1: Seq<(Seq<char>, u64)>, c2: Seq<(Seq<char>, u64)>)
    requires
        entries_sorted(c1),
        entries_sorted(c2),
        forall|k: Seq<char>| #[trigger] count_in(c1, k) == count_in(c2, k),
        forall|k: Seq<char>| #[trigger] has_key(c1, k) <==> has_key(c2, k),
    ensures
        c1 == c2,
    decreases c1.len(),
{
    if c1.len() == 0 && c2.len() == 0 {
        assert(c1 =~= c2);
    } else if c1.len() == 0 {
        assert(has_key(c2, c2.last().0)) by {
            assert(c2[c2.len() - 1].0 == c2.last().0);
        }
        assert(has_key(c1, c2.last().0));
        let i = choose|i: int| 0 <= i < c1.len() && c1[i].0 == c2.last().0;
    } else if c2.len() == 0 {
        assert(has_key(c1, c1.last().0)) by {
            assert(c1[c1.len() - 1].0 == c1.last().0);
        }
        assert(has_key(c2, c1.last().0));
        let i = choose|i: int| 0 <= i < c2.len() && c2[i].0 == c1.last().0;
    } else {
        let k1 = c1.last().0;
        let k2 = c2.last().0;
        assert(has_key(c1, k1)) by {
            assert(c1[c1.len() - 1].0 == k1);
        }
        assert(has_key(c2, k2)) by {
            assert(c2[c2.len() - 1].0 == k2);
        }
        assert(k1 == k2) by {
            assert(has_key(c2, k1));
            assert(has_key(c1, k2));
            let i = choose|i: int| 0 <= i < c2.len() && c2[i].0 == k1;
            let j = choose|j: int| 0 <= j < c1.len() && c1[j].0 == k2;
            if i < c2.len() - 1 {
                assert(lex_lt(c2[i].0, k2));
            }
            if j < c1.len() - 1 {
                assert(lex_lt(c1[j].0, k1));
            }
            lemma_lex_lt_asymmetric(k1, k2);
            lemma_lex_lt_irreflexive(k1);
            lemma_lex_lt_irreflexive(k2);
        }
        lemma_unique_count(c1, c1.len() - 1);
        lemma_unique_count(c2, c2.len() - 1);
        assert(c1.last().1 == c2.last().1);
        let d1 = c1.drop_last();
        let d2 = c2.drop_last();
        assert(entries_sorted(d1));
        assert(entries_sorted(d2));
        assert forall|k: Seq<char>| #[trigger] count_in(d1, k) == count_in(d2, k) by {
            assert(count_in(c1, k) == (if k1 == k { c1.last().1 as nat } else { 0nat })
                + count_in(d1, k));
            assert(count_in(c2, k) == (if k2 == k { c2.last().1 as nat } else { 0nat })
                + count_in(d2, k));
        }
        assert forall|k: Seq<char>| #[trigger] has_key(d1, k) <==> has_key(d2, k) by {
            lemma_drop_last_has_key(c1, k);
            lemma_drop_last_has_key(c2, k);
        }
        lemma_counter_canonical(d1, d2);
        assert(c1 =~= c2) by {
            assert(forall|i: int| 0 <= i < c1.len() - 1 ==> c1[i] == d1[i] && c2[i] == d2[i]);
            assert(c1[c1.len() - 1] == c1.last() && c2[c2.len() - 1] == c2.last());
        }
    }
}

/// Dropping the last entry of a sorted tally removes exactly its sketch.
proof fn lemma_drop_last_has_key(c: Seq<(Seq<char>, u64)>, k: Seq<char>)
    requires
        entries_sorted(c),
        c.len() > 0,
    ensures
        has_key(c.drop_last(), k) <==> (has_key(c, k) && k != c.last().0),
{
    let d = c.drop_last();
    if has_key(d, k) {
        let i = choose|i: int| 0 <= i < d.len() && d[i].0 == k;
        assert(c[i].0 == k);
        assert(lex_lt(c[i].0, c[c.len() - 1].0));
        lemma_lex_lt_irreflexive(k);
    }
    if has_key(c, k) && k != c.last().0 {
        let i = choose|i: int| 0 <= i < c.len() && c[i].0 == k;
        assert(c[c.len() - 1].0 == c.last().0);
        assert(i < c.len() - 1);
        assert(d[i].0 == k);
    }
}

} // verus!
