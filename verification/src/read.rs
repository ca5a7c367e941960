//! Per-read haplotype sketches.
//!
//! A `ReadHaplotype` is the fixed-length sequence of alleles observed for one
//! sequencing read at a marker's allele-defining SNPs (ADSs), one slot per
//! ADS.  Slots start out holding the sentinel allele `'N'` and are filled in
//! as ADS positions are scanned; a sketch that still holds a sentinel is
//! partial and never contributes to a tally.

use vstd::prelude::*;

use crate::lex::{lex_cmp_chars, lex_lt, lemma_lex_lt_irreflexive};
use vstd::std_specs::cmp::PartialEqSpec;
use vstd::string::StrSliceExecFns;

verus! {

/// The sentinel allele recorded in every slot before the position has been
/// observed.
pub const UNSET_ALLELE: char = 'N';

/// A sketch of all-sentinel slots, the state of a fresh sketch.
pub open spec fn sentinel_sketch(n: nat) -> Seq<char> {
    Seq::new(n, |i: int| UNSET_ALLELE)
}

/// A sketch is partial while any slot still holds the sentinel.
pub open spec fn spec_is_partial(s: Seq<char>) -> bool {
    exists|i: int| 0 <= i < s.len() && s[i] == UNSET_ALLELE
}

/// Haplotype observation for one read, as the ordered alleles at the
/// marker's ADSs.  Equality and ordering are structural over the full allele
/// sequence; the textual form is the concatenation of the alleles in order.
#[derive(Debug, Eq, Ord, Hash)]
pub struct ReadHaplotype {
    alleles: Vec<char>,
}

impl View for ReadHaplotype {
    type V = Seq<char>;

    closed spec fn view(&self) -> Seq<char> {
        self.alleles@
    }
}

/// Relies on `String::push`: appends the given character to the string.
#[verifier::external_body]
fn push_char(s: &mut String, c: char)
    ensures
        final(s)@ == old(s)@.push(c),
{
    s.push(c);
}

impl ReadHaplotype {
    /// Allocate a sketch with `size` sentinel slots.
    pub fn new(size: usize) -> (r: ReadHaplotype)
        ensures
            r@ == sentinel_sketch(size as nat),
    {
        let alleles: Vec<char> = vec![UNSET_ALLELE; size];
        proof {
            assert(alleles@ =~= sentinel_sketch(size as nat));
        }
        ReadHaplotype { alleles }
    }

    /// Build a sketch from its textual form, one allele per character.
    pub fn from_string(allele_str: &str) -> (r: ReadHaplotype)
        ensures
            r@ == allele_str@,
    {
        let n = allele_str.unicode_len();
        let mut alleles: Vec<char> = Vec::new();
        let mut k: usize = 0;
        while k < n
            invariant
                n == allele_str@.len(),
                alleles@.len() == k <= n,
                forall|i: int| 0 <= i < k ==> alleles@[i] == allele_str@[i],
            decreases n - k,
    {
            alleles.push(allele_str.get_char(k));
            k = k + 1;
        }
        proof {
            assert(alleles@ =~= allele_str@);
        }
        ReadHaplotype { alleles }
    }

    /// Overwrite the allele at the given slot.
    pub fn set(&mut self, index: usize, allele: char)
        requires
            index < old(self)@.len(),
        ensures
            final(self)@ == old(self)@.update(index as int, allele),
    {
        self.alleles[index] = allele;
    }

    /// Whether any slot still holds the sentinel allele.
    pub fn is_partial(&self) -> (r: bool)
        ensures
            r == spec_is_partial(self@),
    {
        let mut k: usize = 0;
        while k < self.alleles.len()
            invariant
                k <= self@.len(),
                forall|i: int| 0 <= i < k ==> self@[i] != UNSET_ALLELE,
            decreases self@.len() - k,
        {
            if self.alleles[k] == UNSET_ALLELE {
                return true;
            }
            k = k + 1;
        }
        false
    }

    /// The textual form of the sketch: its alleles concatenated in order.
    /// Together with `from_string` this form round-trips exactly.
    pub fn to_text(&self) -> (r: String)
        ensures
            r@ == self@,
    {
        let mut text = String::new();
        let mut k: usize = 0;
        while k < self.alleles.len()
            invariant
                k <= self@.len(),
                text@ =~= self@.take(k as int),
            decreases self@.len() - k,
        {
            push_char(&mut text, self.alleles[k]);
            k = k + 1;
        }
        proof {
            assert(self@.take(self@.len() as int) =~= self@);
        }
        text
    }

    /// The allele at the given slot, or nothing when the slot is out of
    /// range.
    pub fn get(&self, index: usize) -> (r: Option<char>)
        ensures
            r == if index < self@.len() {
                Some(self@[index as int])
            } else {
                None::<char>
            },
    {
        if index < self.alleles.len() {
            Some(self.alleles[index])
        } else {
            None
        }
    }

    /// Three-way comparison under the lexicographic order of the allele
    /// sequences.
    pub fn cmp_lex(&self, other: &ReadHaplotype) -> (r: core::cmp::Ordering)
        ensures
            r is Less <==> lex_lt(self@, other@),
            r is Equal <==> self@ == other@,
            r is Greater <==> lex_lt(other@, self@),
    {
        lex_cmp_chars(&self.alleles, &other.alleles)
    }

    /// The number of slots (the marker's ADS count).
    pub fn len(&self) -> (r: usize)
        ensures
            r == self@.len(),
    {
        self.alleles.len()
    }
}

impl Clone for ReadHaplotype {
    /// A clone carries the same allele sequence.
    fn clone(&self) -> (r: Self)
        ensures
            r@ == self@,
    {
        let alleles = self.alleles.clone();
        proof {
            assert(alleles@ =~= self.alleles@);
        }
        ReadHaplotype { alleles }
    }
}

impl PartialEq for ReadHaplotype {
    fn eq(&self, other: &Self) -> (r: bool) {
        matches!(lex_cmp_chars(&self.alleles, &other.alleles), core::cmp::Ordering::Equal)
    }
}

impl vstd::std_specs::cmp::PartialEqSpecImpl for ReadHaplotype {
    open spec fn obeys_eq_spec() -> bool {
        true
    }

    open spec fn eq_spec(&self, other: &Self) -> bool {
        self@ == other@
    }
}

impl PartialOrd for ReadHaplotype {
    fn partial_cmp(&self, other: &Self) -> (r: Option<core::cmp::Ordering>) {
        let ord = lex_cmp_chars(&self.alleles, &other.alleles);
        proof {
            lemma_lex_lt_irreflexive(self@);
            crate::lex::lemma_lex_lt_asymmetric(self@, other@);
        }
        Some(ord)
    }
}

impl vstd::std_specs::cmp::PartialOrdSpecImpl for ReadHaplotype {
    open spec fn obeys_partial_cmp_spec() -> bool {
        true
    }

    open spec fn partial_cmp_spec(&self, other: &Self) -> Option<core::cmp::Ordering> {
        if lex_lt(self@, other@) {
            Some(core::cmp::Ordering::Less)
        } else if lex_lt(other@, self@) {
            Some(core::cmp::Ordering::Greater)
        } else {
            Some(core::cmp::Ordering::Equal)
        }
    }
}

/// Textual round trip: a sketch rebuilt from its textual form equals the
/// original sketch, for every sketch.  `to_text` returns exactly the
/// allele sequence and `from_string` rebuilds exactly its argument's
/// characters, and sketch equality is equality of the allele sequences,
/// so the textual form is injective and safe to use as a serialization
/// key.
pub proof fn lemma_textual_round_trip(original: ReadHaplotype, text: String, rebuilt: ReadHaplotype)
    requires
        text@ == original@,
        rebuilt@ == text@,
    ensures
        rebuilt@ == original@,
        rebuilt.eq_spec(&original),
{
}

} // verus!
