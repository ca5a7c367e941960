//! The marker panel: one allele definition per marker identifier.
//!
//! A panel is built from tabular rows of (marker, chromosome, offset), one
//! row per ADS.  Rows of the same marker may arrive in any order and their
//! offsets coalesce into that marker's sorted, unique offset sequence; the
//! chromosome of a marker is the one on its first row.

use vstd::prelude::*;

use crate::definition::AlleleDefinition;
use crate::thresholds::{
    lemma_lookup_absent, lemma_lookup_found, lemma_lookup_push, lemma_lookup_update, lookup,
};

verus! {

/// One row of the marker panel table: a marker identifier, its chromosome,
/// and the 0-based genomic offset of one ADS.
#[derive(Debug)]
pub struct PanelRow {
    pub marker: String,
    pub chromosome: String,
    pub offset: u32,
}

/// Whether any row carries the marker.
pub open spec fn row_has(rows: Seq<PanelRow>, id: Seq<char>) -> bool {
    exists|i: int| 0 <= i < rows.len() && rows[i].marker@ == id
}

/// The offsets that the rows give for one marker.
pub open spec fn offsets_for(rows: Seq<PanelRow>, id: Seq<char>) -> Set<u32> {
    Set::new(
        |o: u32|
            exists|i: int|
                0 <= i < rows.len() && rows[i].marker@ == id && (#[trigger] rows[i]).offset == o,
    )
}

/// Index of the first row of a marker, or -1.
pub open spec fn find_row(rows: Seq<PanelRow>, id: Seq<char>) -> int
    decreases rows.len(),
{
    if rows.len() == 0 {
        -1
    } else if rows[0].marker@ == id {
        0
    } else {
        let r = find_row(rows.drop_first(), id);
        if r < 0 {
            -1
        } else {
            r + 1
        }
    }
}

/// `find_row` returns exactly the first index carrying the marker.
pub proof fn lemma_find_row_is(rows: Seq<PanelRow>, id: Seq<char>, f: int)
    requires
        0 <= f < rows.len(),
        rows[f].marker@ == id,
        forall|j: int| 0 <= j < f ==> rows[j].marker@ != id,
    ensures
        find_row(rows, id) == f,
    decreases f,
{
    if f > 0 {
        assert(rows[0].marker@ != id);
        assert(forall|j: int|
            0 <= j < rows.drop_first().len() ==> rows.drop_first()[j] == rows[j + 1]);
        lemma_find_row_is(rows.drop_first(), id, f - 1);
    }
}

/// The marker panel: each marker identifier with its allele definition, in
/// order of first appearance.
#[derive(Debug)]
pub struct MicrohapPanel {
    definitions: Vec<(String, AlleleDefinition)>,
}

impl MicrohapPanel {
    /// The panel's entries: marker identifier and definition.
    pub closed spec fn defs(&self) -> Seq<(Seq<char>, AlleleDefinition)> {
        self.definitions@.map_values(|p: (String, AlleleDefinition)| (p.0@, p.1))
    }

    /// Marker identifiers are unique and every definition is well formed.
    pub open spec fn wf(&self) -> bool {
        &&& forall|i: int, j: int|
            0 <= i < j < self.defs().len() ==> self.defs()[i].0 != self.defs()[j].0
        &&& forall|i: int| 0 <= i < self.defs().len() ==> (#[trigger] self.defs()[i]).1.wf()
    }

    /// The definition stored for a marker, if any.
    pub open spec fn spec_get(&self, id: Seq<char>) -> Option<AlleleDefinition> {
        lookup(self.defs(), id)
    }

    /// Whether the panel holds the marker.
    pub open spec fn has_marker(&self, id: Seq<char>) -> bool {
        self.spec_get(id) is Some
    }

    /// Group tabular rows into a panel: each marker gets the sorted, unique
    /// offsets of all its rows and the chromosome of its first row.
    pub fn from_rows(rows: &Vec<PanelRow>) -> (r: MicrohapPanel)
        ensures
            r.wf(),
            forall|id: Seq<char>| #[trigger] r.has_marker(id) <==> row_has(rows@, id),
            forall|id: Seq<char>| #[trigger] r.spec_get(id) matches Some(d) ==> d.wf()
                && d.spec_chromosome() == rows@[find_row(rows@, id)].chromosome@
                && d.ads_offsets().to_set() == offsets_for(rows@, id),
    {
        let mut panel = MicrohapPanel { definitions: Vec::new() };
        proof {
            assert(panel.defs() =~= Seq::<(Seq<char>, AlleleDefinition)>::empty());
        }
        let mut k: usize = 0;
        while k < rows.len()
            invariant
                k <= rows@.len(),
                panel.wf(),
                forall|id: Seq<char>| #[trigger] panel.has_marker(id) <==> row_has(
                    rows@.take(k as int),
                    id,
                ),
                forall|id: Seq<char>| #[trigger] panel.spec_get(id) matches Some(d) ==> d.wf()
                    && d.spec_chromosome() == rows@[find_row(rows@.take(k as int), id)].chromosome@
                    && 0 <= find_row(rows@.take(k as int), id) < k && rows@[find_row(
                    rows@.take(k as int),
                    id,
                )].marker@ == id && d.ads_offsets().to_set() == offsets_for(
                    rows@.take(k as int),
                    id,
                ),
            decreases rows@.len() - k,
        {
            let row = &rows[k];
            let ghost oldp = panel;
            panel.add_row(row);
            proof {
                let prev = rows@.take(k as int);
                let cur = rows@.take(k + 1);
                let mid = row.marker@;
                assert(forall|j: int| 0 <= j < k ==> cur[j] == rows@[j] && prev[j] == rows@[j]);
                assert(cur[k as int] == rows@[k as int]);
                lemma_take_step_facts(rows@, k as int, mid);
                assert forall|id: Seq<char>| #[trigger] panel.has_marker(id) <==> row_has(
                    cur,
                    id,
                ) by {
                    if id == mid {
                        assert(panel.has_marker(mid));
                        assert(row_has(cur, mid));
                    } else {
                        assert(panel.has_marker(id) <==> oldp.has_marker(id));
                        assert(oldp.has_marker(id) <==> row_has(prev, id));
                    }
                }
                assert forall|id: Seq<char>| #[trigger] panel.spec_get(id) is Some
                    implies panel.spec_get(id)->0.wf() && panel.spec_get(id)->0.spec_chromosome()
                    == rows@[find_row(cur, id)].chromosome@ && 0 <= find_row(cur, id) < k + 1
                    && rows@[find_row(cur, id)].marker@ == id
                    && panel.spec_get(id)->0.ads_offsets().to_set() == offsets_for(cur, id) by {
                    let d = panel.spec_get(id)->0;
                    if id == mid {
                        if oldp.spec_get(mid) is Some {
                            let pd = oldp.spec_get(mid)->0;
                            assert(oldp.spec_get(mid) matches Some(x) ==> x == pd);
                            assert(oldp.has_marker(mid));
                            assert(row_has(prev, mid));
                            assert(d.spec_chromosome() == pd.spec_chromosome());
                            assert(find_row(cur, mid) == find_row(prev, mid));
                            assert(d.ads_offsets().to_set() == pd.ads_offsets().to_set().insert(
                                rows@[k as int].offset,
                            ));
                            assert(offsets_for(cur, mid) == offsets_for(prev, mid).insert(
                                rows@[k as int].offset,
                            ));
                        } else {
                            assert(!oldp.has_marker(mid));
                            assert(!row_has(prev, mid));
                            assert(find_row(cur, mid) == k as int);
                            assert(d.spec_chromosome() == rows@[k as int].chromosome@);
                            assert(d.ads_offsets().to_set() == Set::<u32>::empty().insert(
                                rows@[k as int].offset,
                            ));
                        }
                    } else {
                        assert(panel.spec_get(id) == oldp.spec_get(id));
                        assert(oldp.spec_get(id) matches Some(x) ==> x == d);
                        assert(oldp.has_marker(id));
                        assert(row_has(prev, id));
                        assert(find_row(cur, id) == find_row(prev, id));
                        assert(offsets_for(cur, id) == offsets_for(prev, id));
                    }
                }
            }
            k = k + 1;
        }
        proof {
            assert(rows@.take(rows@.len() as int) =~= rows@);
        }
        panel
    }

    /// Fold one row into the panel.
    fn add_row(&mut self, row: &PanelRow)
        requires
            old(self).wf(),
        ensures
            final(self).wf(),
            forall|id: Seq<char>| id != row.marker@ ==> (#[trigger] final(self).spec_get(id)
                == old(self).spec_get(id)),
            forall|id: Seq<char>| id != row.marker@ ==> (#[trigger] final(self).has_marker(id)
                <==> old(self).has_marker(id)),
            final(self).has_marker(row.marker@),
            final(self).spec_get(row.marker@) matches Some(d) && d.wf() && (match old(
                self,
            ).spec_get(row.marker@) {
                Some(prev) => d.spec_chromosome() == prev.spec_chromosome()
                    && d.ads_offsets().to_set() == prev.ads_offsets().to_set().insert(row.offset),
                None => d.spec_chromosome() == row.chromosome@ && d.ads_offsets().to_set()
                    == Set::<u32>::empty().insert(row.offset),
            }),
    {
        let ghost olds = self.defs();
        let mut i: usize = 0;
        while i < self.definitions.len()
            invariant
                self.wf(),
                self.defs() == olds,
                olds == old(self).defs(),
                olds.len() == self.definitions@.len(),
                i <= olds.len(),
                forall|j: int| 0 <= j < i ==> olds[j].0 != row.marker@,
            decreases olds.len() - i,
        {
            if self.definitions[i].0 == row.marker {
                proof {
                    lemma_lookup_found(olds, i as int);
                }
                let name = self.definitions[i].0.clone();
                let mut def = self.definitions[i].1.clone();
                def.add_snp_offset(row.offset);
                self.definitions[i] = (name, def);
                proof {
                    let d = self.defs()[i as int].1;
                    assert(self.defs() =~= olds.update(i as int, (olds[i as int].0, d)));
                    assert forall|id: Seq<char>| #[trigger] lookup(self.defs(), id) == (if id
                        == row.marker@ {
                        Some(d)
                    } else {
                        lookup(olds, id)
                    }) by {
                        lemma_lookup_update(olds, i as int, d, id);
                    }
                    assert forall|p: int, q: int|
                        0 <= p < q < self.defs().len() implies self.defs()[p].0
                        != self.defs()[q].0 by {
                        assert(self.defs()[p].0 == olds[p].0);
                        assert(self.defs()[q].0 == olds[q].0);
                    }
                }
                return;
            }
            i = i + 1;
        }
        proof {
            lemma_lookup_absent(olds, row.marker@);
        }
        let mut def = AlleleDefinition::new(row.chromosome.as_str());
        def.add_snp_offset(row.offset);
        self.definitions.push((row.marker.clone(), def));
        proof {
            let d = self.defs()[olds.len() as int].1;
            assert(self.defs() =~= olds.push((row.marker@, d)));
            assert forall|id: Seq<char>| #[trigger] lookup(self.defs(), id) == (if id
                == row.marker@ {
                Some(d)
            } else {
                lookup(olds, id)
            }) by {
                lemma_lookup_push(olds, (row.marker@, d), id);
                if id == row.marker@ {
                    lemma_lookup_absent(olds, id);
                }
            }
            assert(d.ads_offsets().to_set() =~= Set::<u32>::empty().insert(row.offset));
            assert forall|p: int, q: int|
                0 <= p < q < self.defs().len() implies self.defs()[p].0 != self.defs()[q].0 by {
                if q == olds.len() {
                    assert(self.defs()[p].0 == olds[p].0);
                    assert(self.defs()[q].0 == row.marker@);
                } else {
                    assert(self.defs()[p].0 == olds[p].0);
                    assert(self.defs()[q].0 == olds[q].0);
                }
            }
        }
    }

    /// The definition stored for a marker.
    pub fn get(&self, identifier: &str) -> (r: Option<&AlleleDefinition>)
        ensures
            match r {
                Some(d) => self.spec_get(identifier@) == Some(*d),
                None => self.spec_get(identifier@) is None,
            },
    {
        let key = identifier.to_owned();
        let mut i: usize = 0;
        while i < self.definitions.len()
            invariant
                key@ == identifier@,
                i <= self.defs().len(),
                self.defs().len() == self.definitions@.len(),
                forall|j: int| 0 <= j < i ==> self.defs()[j].0 != identifier@,
            decreases self.defs().len() - i,
        {
            if self.definitions[i].0 == key {
                proof {
                    lemma_lookup_found(self.defs(), i as int);
                }
                return Some(&self.definitions[i].1);
            }
            i = i + 1;
        }
        proof {
            lemma_lookup_absent(self.defs(), identifier@);
        }
        None
    }

    /// The panel's entries, in order of first appearance.
    pub fn iter(&self) -> (r: &Vec<(String, AlleleDefinition)>)
        ensures
            r@.len() == self.defs().len(),
            forall|i: int| 0 <= i < r@.len() ==> (#[trigger] r@[i].0)@ == self.defs()[i].0
                && r@[i].1 == self.defs()[i].1,
    {
        &self.definitions
    }

    /// Number of markers in the panel.
    pub fn len(&self) -> (r: usize)
        ensures
            r == self.defs().len(),
    {
        self.definitions.len()
    }
}

/// How one more row changes the per-marker row derivations: the marker of
/// the new row gains its offset and keeps its first row; other markers are
/// untouched.
proof fn lemma_take_step_facts(rows: Seq<PanelRow>, k: int, mid: Seq<char>)
    requires
        0 <= k < rows.len(),
        rows[k].marker@ == mid,
    ensures
        forall|id: Seq<char>| id != mid ==> (#[trigger] row_has(rows.take(k + 1), id) <==> row_has(
            rows.take(k),
            id,
        )),
        forall|id: Seq<char>| id != mid ==> #[trigger] offsets_for(rows.take(k + 1), id)
            == offsets_for(rows.take(k), id),
        forall|id: Seq<char>| id != mid && row_has(rows.take(k), id) ==> #[trigger] find_row(
            rows.take(k + 1),
            id,
        ) == find_row(rows.take(k), id),
        row_has(rows.take(k + 1), mid),
        row_has(rows.take(k), mid) ==> find_row(rows.take(k + 1), mid) == find_row(
            rows.take(k),
            mid,
        ) && offsets_for(rows.take(k + 1), mid) == offsets_for(rows.take(k), mid).insert(
            rows[k].offset,
        ),
        !row_has(rows.take(k), mid) ==> find_row(rows.take(k + 1), mid) == k && offsets_for(
            rows.take(k + 1),
            mid,
        ) == Set::<u32>::empty().insert(rows[k].offset),
{
    let prev = rows.take(k);
    let cur = rows.take(k + 1);
    assert(forall|j: int| 0 <= j < k ==> cur[j] == rows[j] && prev[j] == rows[j]);
    assert(cur[k] == rows[k]);
    assert forall|id: Seq<char>| id != mid implies (#[trigger] row_has(cur, id) <==> row_has(
        prev,
        id,
    )) by {
        if row_has(cur, id) {
            let i = choose|i: int| 0 <= i < cur.len() && cur[i].marker@ == id;
            assert(i < k);
            assert(prev[i].marker@ == id);
        }
        if row_has(prev, id) {
            let i = choose|i: int| 0 <= i < prev.len() && prev[i].marker@ == id;
            assert(cur[i].marker@ == id);
        }
    }
    assert forall|id: Seq<char>| id != mid implies #[trigger] offsets_for(cur, id) == offsets_for(
        prev,
        id,
    ) by {
        assert forall|o: u32| offsets_for(cur, id).contains(o) <==> offsets_for(
            prev,
            id,
        ).contains(o) by {
            if offsets_for(cur, id).contains(o) {
                let i = choose|i: int|
                    0 <= i < cur.len() && cur[i].marker@ == id && (#[trigger] cur[i]).offset == o;
                assert(i < k);
                assert(prev[i].marker@ == id && prev[i].offset == o);
            }
            if offsets_for(prev, id).contains(o) {
                let i = choose|i: int|
                    0 <= i < prev.len() && prev[i].marker@ == id && (#[trigger] prev[i]).offset
                        == o;
                assert(cur[i].marker@ == id && cur[i].offset == o);
            }
        }
        assert(offsets_for(cur, id) =~= offsets_for(prev, id));
    }
    assert forall|id: Seq<char>|
        id != mid && row_has(prev, id) implies #[trigger] find_row(cur, id) == find_row(
        prev,
        id,
    ) by {
        lemma_find_row_first(prev, id);
        let f = find_row(prev, id);
        assert(cur[f].marker@ == id);
        assert(forall|j: int| 0 <= j < f ==> cur[j].marker@ != id);
        lemma_find_row_is(cur, id, f);
    }
    assert(cur[k].marker@ == mid);
    if row_has(prev, mid) {
        lemma_find_row_first(prev, mid);
        let f = find_row(prev, mid);
        assert(cur[f].marker@ == mid);
        assert(forall|j: int| 0 <= j < f ==> cur[j].marker@ != mid);
        lemma_find_row_is(cur, mid, f);
        assert forall|o: u32|
            offsets_for(cur, mid).contains(o) <==> offsets_for(prev, mid).insert(
                rows[k].offset,
            ).contains(o) by {
            if offsets_for(cur, mid).contains(o) {
                let i = choose|i: int|
                    0 <= i < cur.len() && cur[i].marker@ == mid && (#[trigger] cur[i]).offset == o;
                if i < k {
                    assert(prev[i].marker@ == mid && prev[i].offset == o);
                }
            }
            if offsets_for(prev, mid).contains(o) {
                let i = choose|i: int|
                    0 <= i < prev.len() && prev[i].marker@ == mid && (#[trigger] prev[i]).offset
                        == o;
                assert(cur[i].marker@ == mid && cur[i].offset == o);
            }
            if o == rows[k].offset {
                assert(cur[k].marker@ == mid && cur[k].offset == o);
            }
        }
        assert(offsets_for(cur, mid) =~= offsets_for(prev, mid).insert(rows[k].offset));
    } else {
        assert(forall|j: int| 0 <= j < k ==> cur[j].marker@ != mid);
        lemma_find_row_is(cur, mid, k);
        assert forall|o: u32|
            offsets_for(cur, mid).contains(o) <==> o == rows[k].offset by {
            if offsets_for(cur, mid).contains(o) {
                let i = choose|i: int|
                    0 <= i < cur.len() && cur[i].marker@ == mid && (#[trigger] cur[i]).offset == o;
                assert(i == k);
            }
            if o == rows[k].offset {
                assert(cur[k].marker@ == mid && cur[k].offset == o);
            }
        }
        assert(offsets_for(cur, mid) =~= Set::<u32>::empty().insert(rows[k].offset));
    }
}

/// A present marker's first row exists and nothing earlier carries it.
proof fn lemma_find_row_first(rows: Seq<PanelRow>, id: Seq<char>)
    requires
        row_has(rows, id),
    ensures
        0 <= find_row(rows, id) < rows.len(),
        rows[find_row(rows, id)].marker@ == id,
        forall|j: int| 0 <= j < find_row(rows, id) ==> rows[j].marker@ != id,
    decreases rows.len(),
{
    if rows.len() > 0 && rows[0].marker@ != id {
        let df = rows.drop_first();
        assert(row_has(df, id)) by {
            let i = choose|i: int| 0 <= i < rows.len() && rows[i].marker@ == id;
            assert(df[i - 1].marker@ == id);
        }
        lemma_find_row_first(df, id);
        let r = find_row(df, id);
        assert(rows[r + 1] == df[r]);
        assert forall|j: int| 0 <= j < r + 1 implies rows[j].marker@ != id by {
            if j > 0 {
                assert(df[j - 1] == rows[j]);
            }
        }
    }
}

} // verus!
