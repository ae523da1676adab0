use crate::buckets::{
    ancestor_free, buckets_cover, buckets_rooted_in, empty_buckets, lemma_empty_no_complete_group,
    no_marks, spec_finalize, spec_finalize_marks,
};
use crate::cell::{no_complete_group, spec_resolution, words_count_children, Cell};
use crate::coverage::CellCoverage;
use crate::error::Error;
use crate::seen::{new_position_map, position_map_get, position_map_insert};
use vstd::prelude::*;

verus! {

/// The place of `value` in `values`.
pub open spec fn place_in(values: Seq<u64>, value: u64) -> int {
    choose|i: int| 0 <= i < values.len() && values[i] == value
}

/// `value` is one of the first `upto` members of `values`.
pub open spec fn found_before(values: Seq<u64>, upto: int, value: u64) -> bool {
    exists|j: int| 0 <= j < upto && j < values.len() && values[j] == value
}

/// Where no value stands twice, a value is found at its place.
pub proof fn lemma_place_in(values: Seq<u64>, i: int)
    requires
        values.no_duplicates(),
        0 <= i < values.len(),
    ensures
        place_in(values, values[i]) == i,
        values.contains(values[i]),
{
}

/// The coverages of the values of a raster, one for each value, in the
/// order in which the values were first met.
pub struct CoverageMap {
    entries: Vec<(u64, CellCoverage)>,
    index: ahash::HashMap<u64, usize>,
}

impl CoverageMap {
    #[verifier::type_invariant]
    spec fn index_knows_entries(self) -> bool {
        forall|i: int|
            0 <= i < self.entries@.len() ==> self.index@.contains_key(
                (#[trigger] self.entries@[i]).0,
            ) && self.index@[self.entries@[i].0] == i && self.entries@[i].1.well_formed()
    }

    /// The values that have a coverage, in the order in which they were
    /// first met.
    pub closed spec fn values(&self) -> Seq<u64> {
        self.entries@.map_values(|entry: (u64, CellCoverage)| entry.0)
    }

    /// The coverages, each at the place of its value in `values`.
    pub closed spec fn coverages(&self) -> Seq<CellCoverage> {
        self.entries@.map_values(|entry: (u64, CellCoverage)| entry.1)
    }

    /// No value stands twice, and each has a well-formed coverage.
    pub open spec fn well_formed(&self) -> bool {
        &&& self.values().len() == self.coverages().len()
        &&& self.values().no_duplicates()
        &&& forall|i: int|
            0 <= i < self.coverages().len() ==> (#[trigger] self.coverages()[i]).well_formed()
    }

    /// Whether `value` has a coverage.
    pub open spec fn has(&self, value: u64) -> bool {
        self.values().contains(value)
    }

    /// The buckets of the coverage of `value`; empty buckets where it has
    /// none.
    pub open spec fn buckets_of(&self, value: u64) -> Seq<Seq<u64>> {
        if self.has(value) {
            self.coverages()[place_in(self.values(), value)].buckets()
        } else {
            empty_buckets()
        }
    }

    /// The marks of the coverage of `value`; no marks where it has none.
    pub open spec fn marks_of(&self, value: u64) -> Seq<bool> {
        if self.has(value) {
            self.coverages()[place_in(self.values(), value)].modified()
        } else {
            no_marks()
        }
    }

    proof fn lemma_well_formed(&self)
        requires
            self.index_knows_entries(),
        ensures
            self.well_formed(),
    {
        assert forall|i: int, j: int|
            0 <= i < self.values().len() && 0 <= j < self.values().len() && i
                != j implies self.values()[i] != self.values()[j] by {
            assert(self.index@[self.entries@[i].0] == i);
            assert(self.index@[self.entries@[j].0] == j);
        }
        assert forall|i: int| 0 <= i < self.coverages().len() implies (
        #[trigger] self.coverages()[i]).well_formed() by {
            assert(self.entries@[i].1.well_formed());
        }
    }

    /// A map without values.
    pub fn new() -> (coverages: CoverageMap)
        ensures
            coverages.well_formed(),
            coverages.values().len() == 0,
    {
        let coverages = CoverageMap { entries: Vec::new(), index: new_position_map() };
        proof {
            coverages.lemma_well_formed();
        }
        coverages
    }

    /// The number of values that have a coverage.
    pub fn len(&self) -> (n: usize)
        ensures
            n == self.values().len(),
            self.well_formed(),
    {
        proof {
            use_type_invariant(self);
            self.lemma_well_formed();
        }
        self.entries.len()
    }

    /// Whether no value has a coverage.
    pub fn is_empty(&self) -> (empty: bool)
        ensures
            empty == (self.values().len() == 0),
    {
        self.entries.len() == 0
    }

    /// The value at place `i`.
    pub fn value_at(&self, i: usize) -> (value: u64)
        requires
            i < self.values().len(),
        ensures
            value == self.values()[i as int],
    {
        self.entries[i].0
    }

    /// The coverage of the value at place `i`.
    pub fn coverage_at(&self, i: usize) -> (coverage: &CellCoverage)
        requires
            i < self.values().len(),
        ensures
            *coverage == self.coverages()[i as int],
    {
        &self.entries[i].1
    }

    /// The place of `value`, where it has a coverage.
    pub fn position(&self, value: u64) -> (place: Option<usize>)
        ensures
            (place is Some) == self.has(value),
            place is Some ==> place->Some_0 < self.values().len() && self.values()[place->Some_0 as int]
                == value && place->Some_0 == place_in(self.values(), value),
    {
        proof {
            use_type_invariant(self);
        }
        let found = position_map_get(&self.index, value);
        let place = match found {
            Some(p) => {
                if p < self.entries.len() && self.entries[p].0 == value {
                    Some(p)
                } else {
                    None
                }
            },
            None => None,
        };
        proof {
            let values = self.values();
            if place is Some {
                let p = place->Some_0 as int;
                assert(values[p] == value);
                let q = place_in(values, value);
                assert(self.index@[self.entries@[q].0] == q);
                assert(self.index@[self.entries@[p].0] == p);
            } else if values.contains(value) {
                let q = choose|q: int| 0 <= q < values.len() && values[q] == value;
                assert(self.entries@[q].0 == value);
                assert(self.index@[self.entries@[q].0] == q);
            }
        }
        place
    }

    /// Whether `value` has a coverage.
    pub fn contains_key(&self, value: u64) -> (held: bool)
        ensures
            held == self.has(value),
    {
        self.position(value).is_some()
    }

    /// The coverage of `value`, where it has one.
    pub fn get(&self, value: u64) -> (coverage: Option<&CellCoverage>)
        ensures
            (coverage is Some) == self.has(value),
            coverage is Some ==> coverage->Some_0.buckets() == self.buckets_of(value)
                && coverage->Some_0.modified() == self.marks_of(value),
    {
        match self.position(value) {
            Some(p) => Some(&self.entries[p].1),
            None => None,
        }
    }

    /// The place of `value`; where it has no coverage yet, an empty one is
    /// put at the end for it.
    fn slot(&mut self, value: u64) -> (place: usize)
        ensures
            final(self).well_formed(),
            place < final(self).values().len(),
            final(self).values()[place as int] == value,
            old(self).has(value) ==> final(self).values() == old(self).values(),
            old(self).has(value) ==> final(self).coverages() == old(self).coverages(),
            !old(self).has(value) ==> final(self).values() == old(self).values().push(value),
            !old(self).has(value) ==> place == old(self).values().len(),
            !old(self).has(value) ==> final(self).coverages().len() == place + 1,
            !old(self).has(value) ==> final(self).coverages()[place as int].buckets()
                == empty_buckets(),
            !old(self).has(value) ==> final(self).coverages()[place as int].modified()
                == no_marks(),
            !old(self).has(value) ==> forall|i: int|
                0 <= i < place ==> #[trigger] final(self).coverages()[i] == old(self).coverages()[i],
    {
        proof {
            use_type_invariant(&*self);
            self.lemma_well_formed();
        }
        match self.position(value) {
            Some(place) => place,
            None => {
                let place = self.entries.len();
                let mut entries: Vec<(u64, CellCoverage)> = Vec::new();
                core::mem::swap(&mut self.entries, &mut entries);
                let mut index = new_position_map();
                core::mem::swap(&mut self.index, &mut index);
                let ghost had = entries@;
                assert forall|i: int| 0 <= i < had.len() implies (#[trigger] had[i]).0 != value by {
                    if had[i].0 == value {
                        assert(old(self).values()[i] == value);
                    }
                }
                position_map_insert(&mut index, value, place);
                let fresh = CellCoverage::new();
                entries.push((value, fresh));
                core::mem::swap(&mut self.index, &mut index);
                core::mem::swap(&mut self.entries, &mut entries);
                proof {
                    use_type_invariant(&*self);
                    self.lemma_well_formed();
                    assert(self.values() =~= old(self).values().push(value));
                    assert forall|i: int| 0 <= i < place implies #[trigger] self.coverages()[i]
                        == old(self).coverages()[i] by {
                        assert(self.entries@[i] == had[i]);
                    }
                }
                place
            },
        }
    }

    /// Puts `cell` into the coverage of `value`; where `value` has none
    /// yet, it gets one first.
    pub fn insert_cell(&mut self, value: u64, cell: Cell)
        ensures
            final(self).well_formed(),
            final(self).values() == if old(self).has(value)
{
                old(self).values()
            } else {
                old(self).values().push(value)
            },
            final(self).buckets_of(value) == old(self).buckets_of(value).update(
                spec_resolution(cell@) as int,
                old(self).buckets_of(value)[spec_resolution(cell@) as int].push(cell@),
            ),
            final(self).marks_of(value) == old(self).marks_of(value).update(
                spec_resolution(cell@) as int,
                true,
            ),
            final(self).has(value),
            forall|other: u64|
                #![trigger final(self).buckets_of(other)]
                other != value ==> final(self).buckets_of(other) == old(self).buckets_of(other),
            forall|other: u64|
                #![trigger final(self).marks_of(other)]
                other != value ==> final(self).marks_of(other) == old(self).marks_of(other),
    {
        proof {
            use_type_invariant(&*self);
            self.lemma_well_formed();
        }
        let place = self.slot(value);
        let ghost mid = *self;
        proof {
            use_type_invariant(&*self);
            lemma_place_in(mid.values(), place as int);
            if old(self).has(value) {
            } else {
                assert(mid.buckets_of(value) == empty_buckets());
            }
            assert(mid.buckets_of(value) == old(self).buckets_of(value));
            assert(mid.marks_of(value) == old(self).marks_of(value));
        }
        let mut entries: Vec<(u64, CellCoverage)> = Vec::new();
        core::mem::swap(&mut self.entries, &mut entries);
        let ghost had = entries@;
        entries[place].1.insert(cell);
        let ghost now = entries@;
        proof {
            assert(forall|i: int| 0 <= i < had.len() && i != place ==> now[i] == had[i]);
            assert(now[place as int].0 == had[place as int].0);
        }
        core::mem::swap(&mut self.entries, &mut entries);
        proof {
            use_type_invariant(&*self);
            self.lemma_well_formed();
            assert(self.values() =~= mid.values());
            lemma_place_in(self.values(), place as int);
            assert(self.coverages()[place as int] == now[place as int].1);
            assert(mid.coverages()[place as int] == had[place as int].1);
            assert forall|other: u64|
                #![trigger self.buckets_of(other)]
                #![trigger self.marks_of(other)]
                other != value implies self.buckets_of(other) == old(self).buckets_of(other)
                && self.marks_of(other) == old(self).marks_of(other) by {
                if self.has(other) {
                    let q = place_in(self.values(), other);
                    assert(q != place);
                    assert(self.coverages()[q] == now[q].1);
                    assert(mid.coverages()[q] == had[q].1);
                    if old(self).has(value) {
                    } else {
                        assert(q < old(self).values().len());
                        assert(old(self).values()[q] == other);
                        lemma_place_in(old(self).values(), q);
                        assert(mid.coverages()[q] == old(self).coverages()[q]);
                    }
                } else {
                    if old(self).has(other) {
                        let q = choose|q: int|
                            0 <= q < old(self).values().len() && old(self).values()[q] == other;
                        assert(self.values()[q] == other);
                    }
                }
            }
        }
    }

    /// The values with their coverages, in the order of `values`; the map
    /// is used up.
    pub fn into_entries(self) -> (entries: Vec<(u64, CellCoverage)>)
        ensures
            entries@.map_values(|entry: (u64, CellCoverage)| entry.0) == self.values(),
            entries@.map_values(|entry: (u64, CellCoverage)| entry.1) == self.coverages(),
    {
        self.entries
    }

    /// Moves the cells of every coverage of `other` to the end of the
    /// coverage that `self` has for the same value; a value that `self`
    /// has not met yet gets an empty coverage first. The resolutions of
    /// which cells arrive are marked as modified.
    pub fn absorb(&mut self, other: CoverageMap)
        ensures
            final(self).well_formed(),
            forall|value: u64|
                #![trigger final(self).has(value)]
                final(self).has(value) <==> old(self).has(value) || other.has(value),
            forall|value: u64, r: int|
                #![trigger final(self).buckets_of(value)[r]]
                0 <= r < 16 ==> final(self).buckets_of(value)[r] == old(self).buckets_of(value)[r]
                    + other.buckets_of(value)[r],
            forall|value: u64, r: int|
                #![trigger final(self).marks_of(value)[r]]
                0 <= r < 16 ==> final(self).marks_of(value)[r] == (old(self).marks_of(value)[r]
                    || other.buckets_of(value)[r].len() > 0),
    {
        proof {
            use_type_invariant(&*self);
            self.lemma_well_formed();
            use_type_invariant(&other);
            other.lemma_well_formed();
        }
        let ghost theirs = other.values();
        let ghost their_coverages = other.coverages();
        let mut source = other.into_entries();
        let ghost orig = source@;
        let n = source.len();
        let mut i: usize = 0;
        proof {
            assert forall|value: u64, r: int| 0 <= r < 16 implies self.buckets_of(value)[r]
                == old(self).buckets_of(value)[r] + empty_buckets()[r] by {
                assert(self.buckets_of(value)[r] + Seq::<u64>::empty() =~= self.buckets_of(
                    value,
                )[r]);
            }
        }
        while i < n
            invariant
                i <= n,
                n == source@.len(),
                n == orig.len(),
                theirs == orig.map_values(|entry: (u64, CellCoverage)| entry.0),
                their_coverages == orig.map_values(|entry: (u64, CellCoverage)| entry.1),
                theirs == other.values(),
                their_coverages == other.coverages(),
                other.well_formed(),
                old(self).well_formed(),
                self.well_formed(),
                forall|j: int| i <= j < n ==> #[trigger] source@[j] == orig[j],
                forall|value: u64|
                    #![trigger self.has(value)]
                    self.has(value) <==> old(self).has(value) || found_before(theirs, i as int, value),
                forall|value: u64, r: int|
                    #![trigger self.buckets_of(value)[r]]
                    0 <= r < 16 ==> self.buckets_of(value)[r] == old(self).buckets_of(value)[r] + (
                    if found_before(theirs, i as int, value) {
                        other.buckets_of(value)
                    } else {
                        empty_buckets()
                    })[r],
                forall|value: u64, r: int|
                    #![trigger self.marks_of(value)[r]]
                    0 <= r < 16 ==> self.marks_of(value)[r] == (old(self).marks_of(value)[r] || (
                    if found_before(theirs, i as int, value) {
                        other.buckets_of(value)
                    } else {
                        empty_buckets()
                    })[r].len() > 0),
            decreases n - i,
        {
            let value = source[i].0;
            let ghost before = *self;
            let place = self.slot(value);
            let ghost mid = *self;
            proof {
                use_type_invariant(&*self);
                assert(theirs[i as int] == value);
                lemma_place_in(theirs, i as int);
                lemma_place_in(mid.values(), place as int);
                assert(!found_before(theirs, i as int, value)) by {
                    if found_before(theirs, i as int, value) {
                        let j = choose|j: int| 0 <= j < i && j < theirs.len() && theirs[j] == value;
                        assert(theirs[j] == theirs[i as int]);
                    }
                }
                assert(their_coverages[i as int] == orig[i as int].1);
                assert(other.buckets_of(value) == orig[i as int].1.buckets());
                assert(mid.buckets_of(value) == before.buckets_of(value));
                assert(mid.marks_of(value) == before.marks_of(value));
                assert(orig[i as int].1.well_formed());
            }
            let mut entries: Vec<(u64, CellCoverage)> = Vec::new();
            core::mem::swap(&mut self.entries, &mut entries);
            let ghost had = entries@;
            entries[place].1.append(&mut source[i].1);
            let ghost now = entries@;
            proof {
                assert(forall|k: int| 0 <= k < had.len() && k != place ==> now[k] == had[k]);
                assert(now[place as int].0 == had[place as int].0);
                assert(forall|j: int| i < j < n ==> #[trigger] source@[j] == orig[j]);
            }
            core::mem::swap(&mut self.entries, &mut entries);
            proof {
                use_type_invariant(&*self);
                self.lemma_well_formed();
                assert(self.values() =~= mid.values());
                lemma_place_in(self.values(), place as int);
                assert(self.coverages()[place as int] == now[place as int].1);
                assert(mid.coverages()[place as int] == had[place as int].1);
                assert forall|other_value: u64|
                    #![trigger self.has(other_value)]
                    self.has(other_value) <==> old(self).has(other_value) || found_before(
                        theirs,
                        i + 1,
                        other_value,
                    ) by {
                    if other_value == value {
                        assert(theirs[i as int] == value);
                        assert(self.values()[place as int] == value);
                    } else {
                        if found_before(theirs, i + 1, other_value) {
                            let j = choose|j: int|
                                0 <= j < i + 1 && j < theirs.len() && theirs[j] == other_value;
                            assert(j < i);
                        }
                        if found_before(theirs, i as int, other_value) {
                            let j = choose|j: int|
                                0 <= j < i && j < theirs.len() && theirs[j] == other_value;
                            assert(theirs[j] == other_value);
                        }
                        if mid.has(other_value) && !before.has(other_value) {
                            let q = choose|q: int|
                                0 <= q < mid.values().len() && mid.values()[q] == other_value;
                            assert(q < before.values().len());
                            assert(before.values()[q] == other_value);
                        }
                        if before.has(other_value) {
                            let q = choose|q: int|
                                0 <= q < before.values().len() && before.values()[q] == other_value;
                            assert(mid.values()[q] == other_value);
                        }
                        assert(self.has(other_value) == before.has(other_value));
                    }
                }
                assert forall|other_value: u64|
                    other_value != value implies self.buckets_of(other_value) == before.buckets_of(
                    other_value,
                ) && self.marks_of(other_value) == before.marks_of(other_value) by {
                    if self.has(other_value) {
                        let q = place_in(self.values(), other_value);
                        assert(q != place);
                        assert(self.coverages()[q] == now[q].1);
                        assert(mid.coverages()[q] == had[q].1);
                        if before.has(value) {
                        } else {
                            assert(q < before.values().len());
                            assert(before.values()[q] == other_value);
                            lemma_place_in(before.values(), q);
                            assert(mid.coverages()[q] == before.coverages()[q]);
                        }
                    } else {
                        if before.has(other_value) {
                            let q = choose|q: int|
                                0 <= q < before.values().len() && before.values()[q] == other_value;
                            assert(self.values()[q] == other_value);
                        }
                    }
                }
                assert forall|other_value: u64, r: int|
                    #![trigger self.buckets_of(other_value)[r]]
                    0 <= r < 16 implies self.buckets_of(other_value)[r] == old(self).buckets_of(
                    other_value,
                )[r] + (if found_before(theirs, i + 1, other_value)
{
                    other.buckets_of(other_value)
                } else {
                    empty_buckets()
                })[r] by {
                    if other_value == value {
                        assert(found_before(theirs, i + 1, value)) by {
                            assert(theirs[i as int] == value);
                        }
                        assert(before.buckets_of(value)[r] == old(self).buckets_of(value)[r]
                            + empty_buckets()[r]);
                        assert(old(self).buckets_of(value)[r] + Seq::<u64>::empty() =~= old(
                            self,
                        ).buckets_of(value)[r]);
                    } else {
                        assert(self.buckets_of(other_value) == before.buckets_of(other_value));
                        assert(found_before(theirs, i + 1, other_value) == found_before(
                            theirs,
                            i as int,
                            other_value,
                        )) by {
                            if found_before(theirs, i + 1, other_value) {
                                let j = choose|j: int|
                                    0 <= j < i + 1 && j < theirs.len() && theirs[j] == other_value;
                                assert(j < i);
                            }
                            if found_before(theirs, i as int, other_value) {
                                let j = choose|j: int|
                                    0 <= j < i && j < theirs.len() && theirs[j] == other_value;
                                assert(theirs[j] == other_value);
                            }
                        }
                        assert(before.buckets_of(other_value)[r] == old(self).buckets_of(
                            other_value,
                        )[r] + (if found_before(theirs, i as int, other_value)
{
                            other.buckets_of(other_value)
                        } else {
                            empty_buckets()
                        })[r]);
                    }
                }
                assert forall|other_value: u64, r: int|
                    #![trigger self.marks_of(other_value)[r]]
                    0 <= r < 16 implies self.marks_of(other_value)[r] == (old(self).marks_of(
                    other_value,
                )[r] || (if found_before(theirs, i + 1, other_value)
{
                    other.buckets_of(other_value)
                } else {
                    empty_buckets()
                })[r].len() > 0) by {
                    if other_value == value {
                        assert(found_before(theirs, i + 1, value)) by {
                            assert(theirs[i as int] == value);
                        }
                        assert(before.marks_of(value)[r] == (old(self).marks_of(value)[r]
                            || empty_buckets()[r].len() > 0));
                    } else {
                        assert(self.marks_of(other_value) == before.marks_of(other_value));
                        assert(found_before(theirs, i + 1, other_value) == found_before(
                            theirs,
                            i as int,
                            other_value,
                        )) by {
                            if found_before(theirs, i + 1, other_value) {
                                let j = choose|j: int|
                                    0 <= j < i + 1 && j < theirs.len() && theirs[j] == other_value;
                                assert(j < i);
                            }
                            if found_before(theirs, i as int, other_value) {
                                let j = choose|j: int|
                                    0 <= j < i && j < theirs.len() && theirs[j] == other_value;
                                assert(theirs[j] == other_value);
                            }
                        }
                        assert(before.marks_of(other_value)[r] == (old(self).marks_of(
                            other_value,
                        )[r] || (if found_before(theirs, i as int, other_value)
{
                            other.buckets_of(other_value)
                        } else {
                            empty_buckets()
                        })[r].len() > 0));
                    }
                }
            }
            i = i + 1;
        }
        proof {
            assert forall|value: u64| found_before(theirs, n as int, value) == other.has(value) by {
                if other.has(value) {
                    let j = choose|j: int| 0 <= j < theirs.len() && theirs[j] == value;
                    assert(theirs[j] == value);
                }
                if found_before(theirs, n as int, value) {
                    let j = choose|j: int| 0 <= j < n && j < theirs.len() && theirs[j] == value;
                    assert(theirs[j] == value);
                }
            }
        }
    }

    /// Finalizes every coverage: compacts it where `compact` is set, and
    /// otherwise frees it of repetitions and of cells that lie inside
    /// another one. To compact, words must be able to count the children
    /// of a cell (`can_count_children`).
    pub fn finalize(&mut self, compact: bool) -> (result: Result<(), Error>)
        requires
            compact ==> words_count_children(),
        ensures
            result is Ok,
            final(self).well_formed(),
            final(self).values() == old(self).values(),
            forall|value: u64|
                #![trigger final(self).buckets_of(value)]
                old(self).has(value) ==> final(self).buckets_of(value) == spec_finalize(
                    old(self).buckets_of(value),
                    old(self).marks_of(value),
                    compact,
                ),
            forall|value: u64|
                #![trigger final(self).marks_of(value)]
                old(self).has(value) ==> final(self).marks_of(value) == spec_finalize_marks(
                    old(self).marks_of(value),
                    compact,
                ),
            forall|value: u64|
                #![trigger ancestor_free(final(self).buckets_of(value))]
                ancestor_free(final(self).buckets_of(value)),
            forall|value: u64, k: int|
                #![trigger final(self).buckets_of(value)[k]]
                compact && 0 <= k < 16 ==> no_complete_group(final(self).buckets_of(value)[k]),
            forall|value: u64|
                #![trigger final(self).buckets_of(value), old(self).buckets_of(value)]
                buckets_rooted_in(final(self).buckets_of(value), old(self).buckets_of(value)),
            forall|value: u64, cell: u64|
                #![trigger buckets_cover(final(self).buckets_of(value), cell)]
                #![trigger buckets_cover(old(self).buckets_of(value), cell)]
                buckets_cover(old(self).buckets_of(value), cell) ==> buckets_cover(
                    final(self).buckets_of(value),
                    cell,
                ),
    {
        proof {
            use_type_invariant(&*self);
            self.lemma_well_formed();
        }
        let mut entries: Vec<(u64, CellCoverage)> = Vec::new();
        core::mem::swap(&mut self.entries, &mut entries);
        let ghost had = entries@;
        let n = entries.len();
        let mut failed: Option<Error> = None;
        let mut i: usize = 0;
        while i < n
            invariant
                i <= n,
                n == entries@.len(),
                n == had.len(),
                failed is None,
                compact ==> words_count_children(),
                forall|j: int| 0 <= j < n ==> (#[trigger] entries@[j]).0 == had[j].0,
                forall|j: int| 0 <= j < n ==> (#[trigger] entries@[j]).1.well_formed(),
                forall|j: int| i <= j < n ==> #[trigger] entries@[j] == had[j],
                forall|j: int|
                    0 <= j < i ==> (#[trigger] entries@[j]).1.buckets() == spec_finalize(
                        had[j].1.buckets(),
                        had[j].1.modified(),
                        compact,
                    ) && entries@[j].1.modified() == spec_finalize_marks(
                        had[j].1.modified(),
                        compact,
                    ) && ancestor_free(entries@[j].1.buckets()) && buckets_rooted_in(
                        entries@[j].1.buckets(),
                        had[j].1.buckets(),
                    ),
                forall|j: int, k: int|
                    #![trigger entries@[j].1.buckets()[k]]
                    compact && 0 <= j < i && 0 <= k < 16 ==> no_complete_group(
                        entries@[j].1.buckets()[k],
                    ),
                forall|j: int, cell: u64|
                    #![trigger buckets_cover(entries@[j].1.buckets(), cell)]
                    0 <= j < i && buckets_cover(had[j].1.buckets(), cell) ==> buckets_cover(
                        entries@[j].1.buckets(),
                        cell,
                    ),
            decreases n - i,
        {
            let ghost before = entries@;
            let done = entries[i].1.finalize(compact);
            proof {
                assert(forall|j: int| 0 <= j < n && j != i ==> entries@[j] == before[j]);
                assert(entries@[i as int].0 == before[i as int].0);
                assert forall|j: int, cell: u64|
                    #![trigger buckets_cover(entries@[j].1.buckets(), cell)]
                    0 <= j < i + 1 && buckets_cover(had[j].1.buckets(), cell) implies buckets_cover(
                    entries@[j].1.buckets(),
                    cell,
                ) by {
                    if j == i {
                        assert(before[i as int].1.spec_covers(cell));
                        assert(entries@[i as int].1.spec_covers(cell));
                    } else {
                        assert(buckets_cover(before[j].1.buckets(), cell));
                    }
                }
            }
            match done {
                Ok(_) => {},
                Err(refused) => {
                    failed = Some(refused);
                },
            }
            i = i + 1;
        }
        let ghost now = entries@;
        core::mem::swap(&mut self.entries, &mut entries);
        proof {
            use_type_invariant(&*self);
            self.lemma_well_formed();
            assert(self.values() =~= old(self).values());
            assert forall|value: u64|
                #![trigger self.buckets_of(value)]
                #![trigger self.marks_of(value)]
                old(self).has(value) implies self.buckets_of(value) == spec_finalize(
                old(self).buckets_of(value),
                old(self).marks_of(value),
                compact,
            ) && self.marks_of(value) == spec_finalize_marks(old(self).marks_of(value), compact) by {
                let q = place_in(self.values(), value);
                assert(self.coverages()[q] == now[q].1);
                assert(old(self).coverages()[q] == had[q].1);
            }
            assert forall|value: u64|
                #![trigger ancestor_free(self.buckets_of(value))]
                #![trigger self.buckets_of(value), old(self).buckets_of(value)]
                ancestor_free(self.buckets_of(value)) && buckets_rooted_in(
                    self.buckets_of(value),
                    old(self).buckets_of(value),
                ) by {
                if old(self).has(value) {
                    let q = place_in(self.values(), value);
                    assert(self.coverages()[q] == now[q].1);
                    assert(old(self).coverages()[q] == had[q].1);
                }
            }
            assert forall|value: u64, k: int|
                #![trigger self.buckets_of(value)[k]]
                compact && 0 <= k < 16 implies no_complete_group(self.buckets_of(value)[k]) by {
                if old(self).has(value) {
                    let q = place_in(self.values(), value);
                    assert(self.coverages()[q] == now[q].1);
                    assert(no_complete_group(now[q].1.buckets()[k]));
                } else {
                    lemma_empty_no_complete_group(empty_buckets()[k]);
                }
            }
            assert forall|value: u64, cell: u64|
                #![trigger buckets_cover(self.buckets_of(value), cell)]
                #![trigger buckets_cover(old(self).buckets_of(value), cell)]
                buckets_cover(old(self).buckets_of(value), cell) implies buckets_cover(
                self.buckets_of(value),
                cell,
            ) by {
                if old(self).has(value) {
                    let q = place_in(self.values(), value);
                    assert(self.coverages()[q] == now[q].1);
                    assert(old(self).coverages()[q] == had[q].1);
                    assert(buckets_cover(had[q].1.buckets(), cell));
                    assert(buckets_cover(now[q].1.buckets(), cell));
                }
            }
        }
        match failed {
            Some(refused) => Err(refused),
            None => Ok(()),
        }
    }
}

} // verus!
