use crate::buckets::{
    lemma_empty_no_complete_group, lemma_fewer_no_complete_group, lemma_finer_unmarked,
    lemma_level_order_free, same_cells, settled,
    ancestor_free, bits_of, buckets_cover, buckets_hold_ancestor, buckets_hold_below,
    buckets_rooted_in, buckets_well_formed, buckets_within, cells_in, compact_down, compact_level,
    concat_below, covered_below, empty_buckets, expand_below, expand_cells, finest_below,
    found_between, held_below, is_compaction_of, is_dedup_of, leads_into,
    lemma_dedup_ancestor_free, lemma_dedup_is, lemma_dedup_of_same_members, lemma_level_step,
    lemma_none_modified, lemma_rooted_transitive, lemma_seen_matches_ancestors, lemma_two_occupied,
    lemma_within_covers, lemma_within_rooted, no_marks, occupied_in, spec_finalize,
    spec_finalize_marks,
};
use crate::cell::{
    all_at_resolution, all_valid, cell_index_valid, children_of, compact_cells, covered_by,
    covers_cell, covers_some, is_ancestor, lemma_covers_transitive, lemma_parent_resolution,
    lemma_resolution_in_range, parent_of, resolution_of, same_resolution, spec_parent,
    no_complete_group, spec_resolution, words_count_children, Cell,
};
use crate::error::Error;
use crate::seen::{cell_set_extend, cell_set_holds, new_cell_set};
use crate::sorting::{same_members, sort_unique, strictly_ascending};
use vstd::prelude::*;

verus! {

/// Whether `seen` holds `cell` or one of its ancestors: the resolutions are
/// tried from the cell's own down to 0.
fn has_seen_ancestor(cell: u64, seen: &ahash::HashSet<u64>) -> (found: bool)
    ensures
        found == leads_into(seen@, cell),
{
    let top = resolution_of(cell);
    let mut k: u8 = top + 1;
    while k > 0
        invariant
            k <= top + 1,
            top == spec_resolution(cell),
            top <= 15,
            forall|j: int| k <= j <= top ==> !seen@.contains(#[trigger] spec_parent(cell, j as u8)),
        decreases k,
    {
        k = k - 1;
        let parent = parent_of(cell, k);
        if cell_set_holds(seen, parent) {
            assert(seen@.contains(spec_parent(cell, k as int as u8)));
            return true;
        }
    }
    false
}

/// Drops from `cells` every cell that `seen` holds or holds an ancestor of;
/// the others keep their order.
fn retain_unseen(cells: &mut Vec<u64>, seen: &ahash::HashSet<u64>)
    ensures
        forall|cell: u64|
            #![trigger final(cells)@.contains(cell)]
            #![trigger old(cells)@.contains(cell)]
            final(cells)@.contains(cell) <==> old(cells)@.contains(cell) && !leads_into(
                seen@,
                cell,
            ),
        strictly_ascending(old(cells)@) ==> strictly_ascending(final(cells)@),
{
    let n = cells.len();
    let mut kept: usize = 0;
    let mut i: usize = 0;
    while i < n
        invariant
            kept <= i <= n,
            cells@.len() == n,
            old(cells)@.len() == n,
            forall|k: int| i <= k < n ==> cells@[k] == old(cells)@[k],
            forall|k: int| 0 <= k < kept ==> !leads_into(seen@, #[trigger] cells@[k]),
            forall|k: int|
                0 <= k < kept ==> found_between(old(cells)@, k, i as int, #[trigger] cells@[k]),
            forall|j: int|
                0 <= j < i ==> leads_into(seen@, #[trigger] old(cells)@[j]) || found_between(
                    cells@,
                    0,
                    kept as int,
                    old(cells)@[j],
                ),
            strictly_ascending(old(cells)@) ==> forall|a: int, b: int|
                0 <= a < b < kept ==> cells@[a] < cells@[b],
        decreases n - i,
    {
        let x = cells[i];
        let ghost before = cells@;
        let ghost kept_before = kept as int;
        let drop = has_seen_ancestor(x, seen);
        if !drop {
            cells[kept] = x;
            kept = kept + 1;
        }
        proof {
            let now = cells@;
            let orig = old(cells)@;
            assert(forall|k: int| 0 <= k < kept_before ==> now[k] == before[k]);
            assert forall|k: int| 0 <= k < kept implies found_between(
                orig,
                k,
                i + 1,
                #[trigger] now[k],
            ) by {
                if k < kept_before {
                    assert(found_between(orig, k, i as int, before[k]));
                    let j = choose|j: int| k <= j < i && 0 <= j < orig.len() && orig[j] == before[k];
                    assert(orig[j] == now[k]);
                } else {
                    assert(orig[i as int] == now[k]);
                }
            }
            assert forall|j: int| 0 <= j < i + 1 implies leads_into(seen@, #[trigger] orig[j])
                || found_between(now, 0, kept as int, orig[j]) by {
                if j < i {
                    if !leads_into(seen@, orig[j]) {
                        assert(found_between(before, 0, kept_before, orig[j]));
                        let k = choose|k: int|
                            0 <= k < kept_before && 0 <= k < before.len() && before[k] == orig[j];
                        assert(now[k] == orig[j]);
                    }
                } else if !drop {
                    assert(now[kept - 1] == orig[j]);
                }
            }
            if strictly_ascending(orig) {
                assert forall|a: int, b: int| 0 <= a < b < kept implies now[a] < now[b] by {
                    if b == kept_before {
                        assert(found_between(orig, a, i as int, before[a]));
                        let j = choose|j: int|
                            a <= j < i && 0 <= j < orig.len() && orig[j] == before[a];
                        assert(orig[j] < orig[i as int]);
                    }
                }
            }
        }
        i = i + 1;
    }
    let ghost full = cells@;
    cells.truncate(kept);
    proof {
        let now = cells@;
        let orig = old(cells)@;
        assert(forall|k: int| 0 <= k < kept ==> now[k] == full[k]);
        assert forall|cell: u64|
            now.contains(cell) <==> orig.contains(cell) && !leads_into(seen@, cell) by {
            if now.contains(cell) {
                let k = choose|k: int| 0 <= k < now.len() && now[k] == cell;
                assert(!leads_into(seen@, full[k]));
                assert(found_between(orig, k, n as int, full[k]));
                let j = choose|j: int| k <= j < n && 0 <= j < orig.len() && orig[j] == full[k];
                assert(orig[j] == cell);
            }
            if orig.contains(cell) && !leads_into(seen@, cell) {
                let j = choose|j: int| 0 <= j < orig.len() && orig[j] == cell;
                assert(leads_into(seen@, orig[j]) || found_between(full, 0, kept as int, orig[j]));
                let k = choose|k: int| 0 <= k < kept && 0 <= k < full.len() && full[k] == orig[j];
                assert(now[k] == cell);
            }
        }
    }
}

/// Whether `x` is a member of `cells`.
fn bucket_holds(cells: &Vec<u64>, x: u64) -> (held: bool)
    ensures
        held == cells@.contains(x),
{
    let mut i: usize = 0;
    while i < cells.len()
        invariant
            i <= cells.len(),
            forall|j: int| 0 <= j < i ==> cells@[j] != x,
        decreases cells.len() - i,
    {
        if cells[i] == x {
            return true;
        }
        i = i + 1;
    }
    false
}

/// Puts a cell for each index of `bits` at the end of `out`.
fn push_cells(out: &mut Vec<Cell>, bits: &Vec<u64>)
    requires
        all_valid(bits@),
    ensures
        bits_of(final(out)@) == bits_of(old(out)@) + bits@,
{
    let mut i: usize = 0;
    while i < bits.len()
        invariant
            i <= bits.len(),
            all_valid(bits@),
            bits_of(out@) == bits_of(old(out)@) + bits@.subrange(0, i as int),
        decreases bits.len() - i,
    {
        let ghost before = out@;
        let cell = Cell::from_valid(bits[i]);
        out.push(cell);
        proof {
            assert(bits_of(out@) =~= bits_of(before).push(bits@[i as int]));
            assert(bits@.subrange(0, i + 1) =~= bits@.subrange(0, i as int).push(bits@[i as int]));
            assert(bits_of(out@) =~= bits_of(old(out)@) + bits@.subrange(0, i + 1));
        }
        i = i + 1;
    }
    proof {
        assert(bits@.subrange(0, bits@.len() as int) =~= bits@);
    }
}

/// A container for the cells that cover an area, kept by resolution.
///
/// Cells may be inserted at any resolution and more than once. `dedup`
/// removes the repetitions, `compact` also replaces complete groups of
/// children by their parent, after which no cell of the coverage lies inside
/// another one.
pub struct CellCoverage {
    modified_resolutions: [bool; 16],
    cells_by_resolution: [Vec<u64>; 16],
}

impl CellCoverage {
    #[verifier::type_invariant]
    spec fn holds_cells_by_resolution(self) -> bool {
        &&& forall|r: int, i: int|
            0 <= r < 16 && 0 <= i < self.cells_by_resolution@[r]@.len() ==> {
                &&& cell_index_valid(#[trigger] self.cells_by_resolution@[r]@[i])
                &&& spec_resolution(self.cells_by_resolution@[r]@[i]) == r
            }
        &&& forall|k: int|
            0 <= k < 16 && !self.modified_resolutions@[k] ==> no_complete_group(
                (#[trigger] self.cells_by_resolution@[k])@,
            )
    }

    /// The cells of each resolution, in the order in which they are stored.
    pub closed spec fn buckets(&self) -> Seq<Seq<u64>> {
        Seq::new(16, |r: int| self.cells_by_resolution@[r]@)
    }

    /// For each resolution, whether cells arrived in its bucket since the
    /// last compaction.
    pub closed spec fn modified(&self) -> Seq<bool> {
        self.modified_resolutions@
    }

    /// Sixteen flags, and sixteen buckets that hold cells of their own
    /// resolution only. A bucket that is not marked holds no complete
    /// group of children.
    pub open spec fn well_formed(&self) -> bool {
        &&& self.modified().len() == 16
        &&& buckets_well_formed(self.buckets())
        &&& settled(self.buckets(), self.modified())
    }

    /// The coverage holds `cell` or an ancestor of it.
    pub open spec fn spec_covers(&self, cell: u64) -> bool {
        buckets_cover(self.buckets(), cell)
    }

    /// The number of cells held, repetitions included.
    pub open spec fn spec_len(&self) -> int {
        cells_in(self.buckets(), 16)
    }

    proof fn lemma_well_formed(&self)
        requires
            self.holds_cells_by_resolution(),
        ensures
            self.well_formed(),
    {
        assert forall|r: int, i: int| 0 <= r < 16 && 0 <= i < self.buckets()[r].len() implies {
            &&& cell_index_valid(#[trigger] self.buckets()[r][i])
            &&& spec_resolution(self.buckets()[r][i]) == r
        } by {
            assert(self.buckets()[r][i] == self.cells_by_resolution@[r]@[i]);
        }
        assert forall|k: int| 0 <= k < 16 && !self.modified()[k] implies no_complete_group(
            #[trigger] self.buckets()[k],
        ) by {
            assert(self.buckets()[k] == self.cells_by_resolution@[k]@);
        }
    }

    /// Takes the bucket of resolution `r` out and leaves an empty one.
    fn take_bucket(&mut self, r: usize) -> (bucket: Vec<u64>)
        requires
            r < 16,
        ensures
            bucket@ == old(self).buckets()[r as int],
            all_valid(bucket@),
            all_at_resolution(bucket@, r as u8),
            !old(self).modified()[r as int] ==> no_complete_group(bucket@),
            final(self).buckets() == old(self).buckets().update(r as int, Seq::empty()),
            final(self).modified() == old(self).modified(),
            final(self).well_formed(),
    {
        proof {
            use_type_invariant(&*self);
            self.lemma_well_formed();
        }
        let mut bucket: Vec<u64> = Vec::new();
        proof {
            lemma_empty_no_complete_group(bucket@);
        }
        core::mem::swap(&mut self.cells_by_resolution[r], &mut bucket);
        proof {
            use_type_invariant(&*self);
            self.lemma_well_formed();
            assert(self.buckets() =~= old(self).buckets().update(r as int, Seq::empty()));
            assert forall|i: int| 0 <= i < bucket@.len() implies cell_index_valid(
                #[trigger] bucket@[i],
            ) && spec_resolution(bucket@[i]) == r as u8 by {
                assert(bucket@[i] == old(self).buckets()[r as int][i]);
            }
        }
        bucket
    }

    /// Puts `bucket` in the place of the bucket of resolution `r`.
    fn put_bucket(&mut self, r: usize, bucket: Vec<u64>)
        requires
            r < 16,
            all_valid(bucket@),
            all_at_resolution(bucket@, r as u8),
            !old(self).modified()[r as int] ==> no_complete_group(bucket@),
        ensures
            final(self).buckets() == old(self).buckets().update(r as int, bucket@),
            final(self).modified() == old(self).modified(),
            final(self).well_formed(),
    {
        proof {
            use_type_invariant(&*self);
        }
        let ghost given = bucket@;
        let mut bucket = bucket;
        core::mem::swap(&mut self.cells_by_resolution[r], &mut bucket);
        proof {
            use_type_invariant(&*self);
            self.lemma_well_formed();
            assert(self.buckets() =~= old(self).buckets().update(r as int, given));
        }
    }

    /// The number of buckets that hold a cell.
    fn occupied_buckets(&self) -> (n: usize)
        ensures
            n == occupied_in(self.buckets(), 16),
    {
        let mut n: usize = 0;
        let mut r: usize = 0;
        while r < 16
            invariant
                r <= 16,
                n <= r,
                n == occupied_in(self.buckets(), r as int),
            decreases 16 - r,
        {
            assert(self.buckets()[r as int] == self.cells_by_resolution@[r as int]@);
            if self.cells_by_resolution[r].len() > 0 {
                n = n + 1;
            }
            r = r + 1;
        }
        n
    }

    /// Sorts every bucket and removes the repetitions in it.
    fn dedup_buckets(&mut self, shrink: bool)
        ensures
            final(self).well_formed(),
            final(self).modified() == old(self).modified(),
            is_dedup_of(final(self).buckets(), old(self).buckets(), false),
    {
        proof {
            use_type_invariant(&*self);
            self.lemma_well_formed();
        }
        let mut r: usize = 0;
        while r < 16
            invariant
                r <= 16,
                self.well_formed(),
                old(self).well_formed(),
                self.modified() == old(self).modified(),
                forall|k: int| r <= k < 16 ==> self.buckets()[k] == old(self).buckets()[k],
                forall|k: int| 0 <= k < r ==> strictly_ascending(#[trigger] self.buckets()[k]),
                forall|k: int|
                    0 <= k < r ==> same_members(
                        #[trigger] self.buckets()[k],
                        old(self).buckets()[k],
                    ),
            decreases 16 - r,
        {
            let ghost before = self.buckets();
            let mut bucket = self.take_bucket(r);
            let ghost taken = bucket@;
            sort_unique(&mut bucket, shrink);
            proof {
                assert forall|i: int| 0 <= i < bucket@.len() implies cell_index_valid(
                    #[trigger] bucket@[i],
                ) && spec_resolution(bucket@[i]) == r as u8 by {
                    assert(bucket@.contains(bucket@[i]));
                    assert(taken.contains(bucket@[i]));
                    let j = choose|j: int| 0 <= j < taken.len() && taken[j] == bucket@[i];
                    assert(cell_index_valid(taken[j]));
                }
            }
            proof {
                if !self.modified()[r as int] {
                    lemma_fewer_no_complete_group(bucket@, taken);
                }
            }
            self.put_bucket(r, bucket);
            proof {
                assert forall|k: int| 0 <= k < r + 1 implies strictly_ascending(
                    #[trigger] self.buckets()[k],
                ) && same_members(self.buckets()[k], old(self).buckets()[k]) by {
                    if k < r {
                        assert(self.buckets()[k] == before[k]);
                    }
                }
            }
            r = r + 1;
        }
        proof {
            assert forall|k: int, cell: u64| 0 <= k < 16 implies (
            #[trigger] self.buckets()[k].contains(cell) <==> old(self).buckets()[k].contains(
                cell,
            )) by {
                assert(same_members(self.buckets()[k], old(self).buckets()[k]));
            }
        }
    }

    /// Removes every cell that has an ancestor in the coverage, from buckets
    /// in which nothing is repeated.
    fn drop_covered(&mut self)
        requires
            forall|r: int| 0 <= r < 16 ==> strictly_ascending(#[trigger] old(self).buckets()[r]),
        ensures
            final(self).well_formed(),
            final(self).modified() == old(self).modified(),
            is_dedup_of(final(self).buckets(), old(self).buckets(), true),
            forall|k: int, i: int|
                0 <= k < 16 && 0 <= i < old(self).buckets()[k].len() ==> buckets_cover(
                    final(self).buckets(),
                    #[trigger] old(self).buckets()[k][i],
                ),
    {
        proof {
            use_type_invariant(&*self);
            self.lemma_well_formed();
        }
        let ghost mid = self.buckets();
        let mut seen = new_cell_set();
        let mut r: usize = 0;
        while r < 16
            invariant
                r <= 16,
                self.well_formed(),
                buckets_well_formed(mid),
                mid == old(self).buckets(),
                self.modified() == old(self).modified(),
                forall|k: int| 0 <= k < 16 ==> strictly_ascending(#[trigger] mid[k]),
                forall|k: int| r <= k < 16 ==> self.buckets()[k] == mid[k],
                forall|k: int| 0 <= k < r ==> strictly_ascending(#[trigger] self.buckets()[k]),
                forall|k: int, x: u64|
                    0 <= k < r ==> (#[trigger] self.buckets()[k].contains(x) <==> mid[k].contains(x)
                        && !buckets_hold_ancestor(mid, x)),
                forall|x: u64| seen@.contains(x) <==> held_below(self.buckets(), r as int, x),
                forall|k: int, i: int|
                    0 <= k < r && 0 <= i < mid[k].len() ==> covered_below(
                        self.buckets(),
                        r as int,
                        #[trigger] mid[k][i],
                    ),
            decreases 16 - r,
        {
            let ghost before = self.buckets();
            let ghost seen_before = seen@;
            let mut bucket = self.take_bucket(r);
            let ghost cur = self.buckets();
            let ghost taken = bucket@;
            proof {
                assert(taken == mid[r as int]);
                assert forall|x: u64| seen_before.contains(x) <==> held_below(cur, r as int, x) by {
                    if held_below(before, r as int, x) {
                        let (k, i) = choose|k: int, i: int|
                            0 <= k < r && k < before.len() && 0 <= i < before[k].len()
                                && #[trigger] before[k][i] == x;
                        assert(cur[k][i] == x);
                    }
                    if held_below(cur, r as int, x) {
                        let (k, i) = choose|k: int, i: int|
                            0 <= k < r && k < cur.len() && 0 <= i < cur[k].len()
                                && #[trigger] cur[k][i] == x;
                        assert(before[k][i] == x);
                    }
                }
                assert forall|k: int, i: int| 0 <= k < r && 0 <= i < mid[k].len() implies covered_below(
                    cur,
                    r as int,
                    #[trigger] mid[k][i],
                ) by {
                    assert(covered_below(before, r as int, mid[k][i]));
                    let (k2, i2) = choose|k2: int, i2: int|
                        0 <= k2 < r && k2 < before.len() && 0 <= i2 < before[k2].len()
                            && covers_cell(#[trigger] before[k2][i2], mid[k][i]);
                    assert(cur[k2][i2] == before[k2][i2]);
                }
                assert forall|k: int, x: u64| 0 <= k < r && #[trigger] cur[k].contains(
                    x,
                ) implies mid[k].contains(x) by {
                    assert(cur[k] == before[k]);
                }
            }
            if !seen.is_empty() {
                retain_unseen(&mut bucket, &seen);
                assert(forall|x: u64|
                    bucket@.contains(x) <==> taken.contains(x) && !leads_into(seen@, x));
            } else {
                assert(forall|x: u64| !seen@.contains(x));
                assert(forall|x: u64| !leads_into(seen@, x));
                assert(forall|x: u64|
                    bucket@.contains(x) <==> taken.contains(x) && !leads_into(seen@, x));
            }
            proof {
                assert forall|x: u64| bucket@.contains(x) <==> mid[r as int].contains(x)
                    && !buckets_hold_ancestor(mid, x) by {
                    if mid[r as int].contains(x) {
                        let j = choose|j: int| 0 <= j < mid[r as int].len() && mid[r as int][j] == x;
                        assert(spec_resolution(mid[r as int][j]) == r);
                        lemma_seen_matches_ancestors(cur, mid, seen@, r as int, x);
                    }
                }
                assert forall|i: int| 0 <= i < bucket@.len() implies cell_index_valid(
                    #[trigger] bucket@[i],
                ) && spec_resolution(bucket@[i]) == r as u8 by {
                    assert(bucket@.contains(bucket@[i]));
                    let j = choose|j: int|
                        0 <= j < mid[r as int].len() && mid[r as int][j] == bucket@[i];
                    assert(cell_index_valid(mid[r as int][j]));
                }
            }
            cell_set_extend(&mut seen, &bucket);
            let ghost kept = bucket@;
            proof {
                if !self.modified()[r as int] {
                    lemma_fewer_no_complete_group(kept, taken);
                }
            }
            self.put_bucket(r, bucket);
            proof {
                let now = self.buckets();
                assert(forall|k: int| 0 <= k < 16 && k != r ==> now[k] == before[k]);
                assert(now[r as int] == kept);
                assert forall|x: u64| seen@.contains(x) <==> held_below(now, r + 1, x) by {
                    if seen_before.contains(x) {
                        let (k, i) = choose|k: int, i: int|
                            0 <= k < r && k < cur.len() && 0 <= i < cur[k].len()
                                && #[trigger] cur[k][i] == x;
                        assert(now[k][i] == x);
                    }
                    if kept.contains(x) {
                        let i = choose|i: int| 0 <= i < kept.len() && kept[i] == x;
                        assert(now[r as int][i] == x);
                    }
                    if held_below(now, r + 1, x) {
                        let (k, i) = choose|k: int, i: int|
                            0 <= k < r + 1 && k < now.len() && 0 <= i < now[k].len()
                                && #[trigger] now[k][i] == x;
                        if k < r {
                            assert(cur[k][i] == x);
                        } else {
                            assert(kept.contains(x));
                        }
                    }
                }
                assert forall|k: int, i: int| 0 <= k < r + 1 && 0 <= i < mid[k].len() implies covered_below(
                    now,
                    r + 1,
                    #[trigger] mid[k][i],
                ) by {
                    let x = mid[k][i];
                    if k < r {
                        assert(covered_below(cur, r as int, mid[k][i]));
                        let (k2, i2) = choose|k2: int, i2: int|
                            0 <= k2 < r && k2 < cur.len() && 0 <= i2 < cur[k2].len() && covers_cell(
                                #[trigger] cur[k2][i2],
                                x,
                            );
                        assert(now[k2][i2] == cur[k2][i2]);
                    } else {
                        assert(mid[r as int].contains(x));
                        if kept.contains(x) {
                            let i3 = choose|i3: int| 0 <= i3 < kept.len() && kept[i3] == x;
                            assert(covers_cell(now[r as int][i3], x));
                        } else {
                            lemma_seen_matches_ancestors(cur, mid, seen_before, r as int, x);
                            assert(buckets_hold_ancestor(mid, x));
                            assert(leads_into(seen_before, x));
                            let k0 = choose|k0: int|
                                0 <= k0 <= spec_resolution(x) && seen_before.contains(
                                    #[trigger] spec_parent(x, k0 as u8),
                                );
                            let a = spec_parent(x, k0 as u8);
                            assert(held_below(cur, r as int, a));
                            let (k1, i1) = choose|k1: int, i1: int|
                                0 <= k1 < r && k1 < cur.len() && 0 <= i1 < cur[k1].len()
                                    && #[trigger] cur[k1][i1] == a;
                            assert(spec_resolution(cur[k1][i1]) == k1);
                            lemma_parent_resolution(x, k0 as u8);
                            assert(is_ancestor(a, x));
                            assert(covers_cell(now[k1][i1], x));
                        }
                    }
                }
                assert forall|k: int, x: u64| 0 <= k < r + 1 implies (#[trigger] now[k].contains(x)
                    <==> mid[k].contains(x) && !buckets_hold_ancestor(mid, x)) by {
                    if k < r {
                        assert(now[k] == before[k]);
                    }
                }
                assert forall|k: int| 0 <= k < r + 1 implies strictly_ascending(
                    #[trigger] now[k],
                ) by {
                    if k < r {
                        assert(now[k] == before[k]);
                    }
                }
            }
            r = r + 1;
        }
        proof {
            let now = self.buckets();
            assert forall|k: int, i: int| 0 <= k < 16 && 0 <= i < mid[k].len() implies buckets_cover(
                now,
                #[trigger] mid[k][i],
            ) by {
                assert(covered_below(now, 16, mid[k][i]));
                let (k2, i2) = choose|k2: int, i2: int|
                    0 <= k2 < 16 && k2 < now.len() && 0 <= i2 < now[k2].len() && covers_cell(
                        #[trigger] now[k2][i2],
                        mid[k][i],
                    );
                assert(covers_cell(now[k2][i2], mid[k][i]));
            }
        }
    }

    /// Sorts every bucket and removes the repetitions in it. With `parents`,
    /// every cell that has an ancestor in the coverage is removed as well.
    /// With `shrink`, the buckets give back their spare capacity.
    pub fn dedup(&mut self, shrink: bool, parents: bool)
        ensures
            final(self).well_formed(),
            final(self).modified() == old(self).modified(),
            is_dedup_of(final(self).buckets(), old(self).buckets(), parents),
            parents ==> ancestor_free(final(self).buckets()),
            forall|cell: u64|
                #![trigger old(self).spec_covers(cell)]
                #![trigger final(self).spec_covers(cell)]
                old(self).spec_covers(cell) <==> final(self).spec_covers(cell),
            buckets_within(final(self).buckets(), old(self).buckets()),
    {
        proof {
            use_type_invariant(&*self);
            self.lemma_well_formed();
        }
        self.dedup_buckets(shrink);
        let ghost mid = self.buckets();
        proof {
            assert(buckets_within(mid, old(self).buckets()));
            assert(buckets_within(old(self).buckets(), mid));
        }
        if parents {
            if self.occupied_buckets() > 1 {
                self.drop_covered();
                proof {
                    lemma_dedup_of_same_members(self.buckets(), mid, old(self).buckets(), true);
                }
            } else {
                proof {
                    assert forall|r: int, cell: u64| 0 <= r < 16 && #[trigger] mid[r].contains(
                        cell,
                    ) implies !buckets_hold_ancestor(mid, cell) by {
                        if buckets_hold_ancestor(mid, cell) {
                            let (k, i) = choose|k: int, i: int|
                                0 <= k < mid.len() && 0 <= i < mid[k].len() && is_ancestor(
                                    #[trigger] mid[k][i],
                                    cell,
                                );
                            let j = choose|j: int| 0 <= j < mid[r].len() && mid[r][j] == cell;
                            assert(spec_resolution(mid[k][i]) == k);
                            assert(spec_resolution(mid[r][j]) == r);
                            lemma_two_occupied(mid, k, r, 16);
                        }
                    }
                    assert(is_dedup_of(mid, mid, true));
                    lemma_dedup_of_same_members(mid, mid, old(self).buckets(), true);
                    assert forall|k: int, i: int|
                        0 <= k < 16 && 0 <= i < mid[k].len() implies buckets_cover(
                        mid,
                        #[trigger] mid[k][i],
                    ) by {
                        assert(covers_cell(mid[k][i], mid[k][i]));
                    }
                }
            }
            proof {
                lemma_dedup_ancestor_free(self.buckets(), old(self).buckets());
            }
        }
        proof {
            let now = self.buckets();
            let was = old(self).buckets();
            assert(buckets_within(now, was));
            assert forall|cell: u64| buckets_cover(was, cell) <==> buckets_cover(now, cell) by {
                lemma_within_covers(now, was, cell);
                if buckets_cover(was, cell) {
                    lemma_within_covers(was, mid, cell);
                    let (k, i) = choose|k: int, i: int|
                        0 <= k < mid.len() && 0 <= i < mid[k].len() && covers_cell(
                            #[trigger] mid[k][i],
                            cell,
                        );
                    if parents {
                        assert(buckets_cover(now, mid[k][i]));
                        let (k2, i2) = choose|k2: int, i2: int|
                            0 <= k2 < now.len() && 0 <= i2 < now[k2].len() && covers_cell(
                                #[trigger] now[k2][i2],
                                mid[k][i],
                            );
                        lemma_covers_transitive(now[k2][i2], mid[k][i], cell);
                    }
                }
            }
        }
    }

    /// The finest resolution whose bucket is marked as modified.
    fn finest_modified(&self) -> (top: Option<usize>)
        ensures
            top is Some ==> top->Some_0 < 16 && top->Some_0 == finest_below(self.modified(), 16),
            top is None ==> finest_below(self.modified(), 16) == -1,
    {
        let mut n: usize = 16;
        while n > 0
            invariant
                n <= 16,
                finest_below(self.modified(), 16) == finest_below(self.modified(), n as int),
            decreases n,
        {
            if self.modified_resolutions[n - 1] {
                return Some(n - 1);
            }
            n = n - 1;
        }
        None
    }

    /// Puts the cell index `bits` at the end of the bucket of its resolution
    /// and marks that resolution as modified.
    fn push_bits(&mut self, bits: u64)
        requires
            cell_index_valid(bits),
        ensures
            final(self).well_formed(),
            final(self).buckets() == old(self).buckets().update(
                spec_resolution(bits) as int,
                old(self).buckets()[spec_resolution(bits) as int].push(bits),
            ),
            final(self).modified() == old(self).modified().update(
                spec_resolution(bits) as int,
                true,
            ),
    {
        let r = resolution_of(bits) as usize;
        proof {
            use_type_invariant(&*self);
            self.lemma_well_formed();
        }
        self.modified_resolutions[r] = true;
        let mut bucket: Vec<u64> = Vec::new();
        proof {
            lemma_empty_no_complete_group(bucket@);
        }
        core::mem::swap(&mut self.cells_by_resolution[r], &mut bucket);
        bucket.push(bits);
        core::mem::swap(&mut self.cells_by_resolution[r], &mut bucket);
        proof {
            use_type_invariant(&*self);
            self.lemma_well_formed();
            assert(self.buckets() =~= old(self).buckets().update(
                r as int,
                old(self).buckets()[r as int].push(bits),
            ));
        }
    }

    /// Puts every cell of `cells` into the bucket of its resolution.
    fn push_all(&mut self, cells: &Vec<u64>)
        requires
            all_valid(cells@),
        ensures
            final(self).well_formed(),
            forall|k: int, x: u64|
                0 <= k < 16 ==> (#[trigger] final(self).buckets()[k].contains(x)
                    <==> old(self).buckets()[k].contains(x) || (cells@.contains(x)
                    && spec_resolution(x) == k)),
    {
        proof {
            use_type_invariant(&*self);
            self.lemma_well_formed();
        }
        let mut i: usize = 0;
        while i < cells.len()
            invariant
                i <= cells.len(),
                all_valid(cells@),
                self.well_formed(),
                forall|k: int, x: u64|
                    0 <= k < 16 ==> (#[trigger] self.buckets()[k].contains(x)
                        <==> old(self).buckets()[k].contains(x) || (found_between(
                        cells@,
                        0,
                        i as int,
                        x,
                    ) && spec_resolution(x) == k)),
            decreases cells.len() - i,
        {
            let bits = cells[i];
            let ghost before = self.buckets();
            self.push_bits(bits);
            proof {
                let now = self.buckets();
                let r = spec_resolution(bits) as int;
                lemma_resolution_in_range(bits);
                assert forall|k: int, x: u64| 0 <= k < 16 implies (#[trigger] now[k].contains(x)
                    <==> old(self).buckets()[k].contains(x) || (found_between(
                    cells@,
                    0,
                    i + 1,
                    x,
                ) && spec_resolution(x) == k)) by {
                    if k == r {
                        assert(now[k] == before[k].push(bits));
                        if now[k].contains(x) {
                            let j = choose|j: int| 0 <= j < now[k].len() && now[k][j] == x;
                            if j < before[k].len() {
                                assert(before[k][j] == x);
                                assert(before[k].contains(x));
                            } else {
                                assert(cells@[i as int] == x);
                            }
                        }
                        if before[k].contains(x) {
                            let j = choose|j: int| 0 <= j < before[k].len() && before[k][j] == x;
                            assert(now[k][j] == x);
                        }
                        if x == bits {
                            assert(now[k][before[k].len() as int] == x);
                        }
                    } else {
                        assert(now[k] == before[k]);
                    }
                    if found_between(cells@, 0, i + 1, x) && !found_between(cells@, 0, i as int, x) {
                        let j = choose|j: int| 0 <= j < i + 1 && 0 <= j < cells@.len() && cells@[j] == x;
                        assert(j == i);
                    }
                    if found_between(cells@, 0, i as int, x) {
                        let j = choose|j: int| 0 <= j < i && 0 <= j < cells@.len() && cells@[j] == x;
                        assert(cells@[j] == x);
                    }
                }
            }
            i = i + 1;
        }
        proof {
            assert forall|k: int, x: u64| 0 <= k < 16 implies (#[trigger] self.buckets()[k].contains(
                x,
            ) <==> old(self).buckets()[k].contains(x) || (cells@.contains(x) && spec_resolution(x)
                == k)) by {
                if cells@.contains(x) {
                    let j = choose|j: int| 0 <= j < cells@.len() && cells@[j] == x;
                    assert(found_between(cells@, 0, i as int, x));
                }
                if found_between(cells@, 0, i as int, x) {
                    let j = choose|j: int| 0 <= j < i && 0 <= j < cells@.len() && cells@[j] == x;
                    assert(cells@[j] == x);
                }
            }
        }
    }

    /// Compacts the bucket of resolution `r`: the bucket is emptied, its
    /// cells are sorted and compacted by the grid, and every cell that
    /// comes out is put into the bucket of its resolution.
    fn compact_bucket(&mut self, r: usize) -> (result: Result<(), Error>)
        requires
            r < 16,
            words_count_children(),
        ensures
            result is Ok,
            final(self).well_formed(),
            same_cells(final(self).buckets(), compact_level(old(self).buckets(), r as int)),
            buckets_rooted_in(final(self).buckets(), old(self).buckets()),
            forall|cell: u64|
                #![trigger buckets_cover(old(self).buckets(), cell)]
                #![trigger buckets_cover(final(self).buckets(), cell)]
                buckets_cover(old(self).buckets(), cell) ==> buckets_cover(
                    final(self).buckets(),
                    cell,
                ),
            no_complete_group(final(self).buckets()[r as int]),
            forall|k: int|
                r < k < 16 ==> same_members(
                    #[trigger] final(self).buckets()[k],
                    old(self).buckets()[k],
                ),
    {
        proof {
            use_type_invariant(&*self);
            self.lemma_well_formed();
        }
        let ghost cur = self.buckets();
        let mut bucket = self.take_bucket(r);
        let ghost taken = bucket@;
        let ghost base = self.buckets();
        sort_unique(&mut bucket, false);
        let ghost sorted = bucket@;
        proof {
            assert forall|i: int| 0 <= i < sorted.len() implies cell_index_valid(
                #[trigger] sorted[i],
            ) && spec_resolution(sorted[i]) == r as u8 by {
                assert(sorted.contains(sorted[i]));
                let j = choose|j: int| 0 <= j < taken.len() && taken[j] == sorted[i];
                assert(cell_index_valid(taken[j]));
            }
            assert(sorted.no_duplicates()) by {
                assert forall|i: int, j: int|
                    0 <= i < sorted.len() && 0 <= j < sorted.len() && i != j implies sorted[i]
                    != sorted[j] by {
                    if i < j {
                        assert(sorted[i] < sorted[j]);
                    } else {
                        assert(sorted[j] < sorted[i]);
                    }
                }
            }
            assert(same_resolution(sorted));
        }
        match compact_cells(bucket) {
            Ok(found) => {
                self.push_all(&found);
                proof {
                    let now = self.buckets();
                    assert forall|k: int, x: u64| 0 <= k < 16 implies (#[trigger] now[k].contains(x)
                        <==> (k != r && cur[k].contains(x)) || (found@.contains(x)
                        && spec_resolution(x) == k)) by {
                        if k != r {
                            assert(base[k] == cur[k]);
                        } else {
                            assert(base[k].len() == 0);
                        }
                    }
                    assert(buckets_within(cur, cur));
                    lemma_level_step(cur, cur, now, sorted, found@, r as int);
                    assert forall|j: int| 0 <= j < found@.len() implies spec_resolution(
                        #[trigger] found@[j],
                    ) <= r by {
                        assert(covers_some(found@[j], sorted));
                        let m = choose|m: int|
                            0 <= m < sorted.len() && covers_cell(found@[j], #[trigger] sorted[m]);
                        assert(spec_resolution(sorted[m]) == r);
                    }
                    assert forall|k: int| r < k < 16 implies same_members(
                        #[trigger] now[k],
                        cur[k],
                    ) by {
                        assert forall|x: u64| now[k].contains(x) <==> cur[k].contains(x) by {
                            if found@.contains(x) {
                                let j = choose|j: int| 0 <= j < found@.len() && found@[j] == x;
                                assert(spec_resolution(found@[j]) <= r);
                            }
                        }
                    }
                    assert(no_complete_group(now[r as int])) by {
                        assert forall|x: u64| now[r as int].contains(x) implies found@.contains(x) by {}
                        lemma_fewer_no_complete_group(now[r as int], found@);
                    }
                    assert forall|k: int, i: int|
                        0 <= k < now.len() && 0 <= i < now[k].len() implies buckets_hold_below(
                        cur,
                        #[trigger] now[k][i],
                    ) by {
                        let x = now[k][i];
                        assert(now[k].contains(x));
                        if k != r && cur[k].contains(x) {
                            let j = choose|j: int| 0 <= j < cur[k].len() && cur[k][j] == x;
                            assert(covers_cell(x, cur[k][j]));
                        } else {
                            assert(found@.contains(x));
                            let j = choose|j: int| 0 <= j < found@.len() && found@[j] == x;
                            assert(covers_some(found@[j], sorted));
                            let m = choose|m: int|
                                0 <= m < sorted.len() && covers_cell(x, #[trigger] sorted[m]);
                            assert(sorted.contains(sorted[m]));
                            assert(taken.contains(sorted[m]));
                            let t = choose|t: int| 0 <= t < taken.len() && taken[t] == sorted[m];
                            assert(covers_cell(x, cur[r as int][t]));
                        }
                    }
                    assert forall|cell: u64|
                        #![trigger buckets_cover(cur, cell)]
                        #![trigger buckets_cover(now, cell)]
                        buckets_cover(cur, cell) implies buckets_cover(now, cell) by {
                        let (k2, i2) = choose|k2: int, i2: int|
                            0 <= k2 < cur.len() && 0 <= i2 < cur[k2].len() && covers_cell(
                                #[trigger] cur[k2][i2],
                                cell,
                            );
                        let y = cur[k2][i2];
                        assert(cur[k2].contains(y));
                        if k2 != r {
                            assert(now[k2].contains(y));
                            let j = choose|j: int| 0 <= j < now[k2].len() && now[k2][j] == y;
                            assert(covers_cell(now[k2][j], cell));
                        } else {
                            assert(sorted.contains(y));
                            let j = choose|j: int| 0 <= j < sorted.len() && sorted[j] == y;
                            assert(covered_by(found@, sorted[j]));
                            let m = choose|m: int|
                                0 <= m < found@.len() && covers_cell(#[trigger] found@[m], y);
                            let o = found@[m];
                            lemma_resolution_in_range(o);
                            let ko = spec_resolution(o) as int;
                            assert(found@.contains(o));
                            assert(now[ko].contains(o));
                            let j2 = choose|j2: int| 0 <= j2 < now[ko].len() && now[ko][j2] == o;
                            lemma_covers_transitive(o, y, cell);
                            assert(covers_cell(now[ko][j2], cell));
                        }
                    }
                }
                Ok(())
            },
            Err(refused) => Err(Error::CompactionError(refused)),
        }
    }

    /// Clears all marks, where no bucket holds a complete group of
    /// children.
    fn clear_marks(&mut self)
        requires
            forall|k: int| 0 <= k < 16 ==> no_complete_group(#[trigger] old(self).buckets()[k]),
        ensures
            final(self).well_formed(),
            final(self).buckets() == old(self).buckets(),
            final(self).modified() == no_marks(),
    {
        proof {
            use_type_invariant(&*self);
            self.lemma_well_formed();
            assert forall|k: int| 0 <= k < 16 implies no_complete_group(
                (#[trigger] self.cells_by_resolution@[k])@,
            ) by {
                assert(self.buckets()[k] == self.cells_by_resolution@[k]@);
            }
        }
        self.modified_resolutions = [false; 16];
        proof {
            use_type_invariant(&*self);
            self.lemma_well_formed();
            assert(self.buckets() =~= old(self).buckets());
            assert(self.modified() =~= no_marks());
        }
    }

    /// Compacts the coverage: repetitions go, every complete group of
    /// children is replaced by its parent, up to the coarsest resolution,
    /// and no cell is left that lies inside another one. The marks are
    /// cleared.
    ///
    /// From the finest marked resolution down to the coarsest, the bucket
    /// is emptied, its cells are sorted and compacted by the grid, and what
    /// comes out is put into the bucket of its resolution. This needs words
    /// that can count the children of a cell (`can_count_children`), and
    /// never fails then.
    pub fn compact(&mut self) -> (result: Result<(), Error>)
        requires
            words_count_children(),
        ensures
            result is Ok,
            final(self).well_formed(),
            final(self).modified() == no_marks(),
            is_compaction_of(final(self).buckets(), old(self).buckets(), old(self).modified()),
            ancestor_free(final(self).buckets()),
            forall|k: int| 0 <= k < 16 ==> no_complete_group(#[trigger] final(self).buckets()[k]),
            forall|cell: u64|
                #![trigger old(self).spec_covers(cell)]
                #![trigger final(self).spec_covers(cell)]
                old(self).spec_covers(cell) ==> final(self).spec_covers(cell),
            buckets_rooted_in(final(self).buckets(), old(self).buckets()),
    {
        proof {
            use_type_invariant(&*self);
            self.lemma_well_formed();
        }
        let ghost start = self.buckets();
        let ghost marks = self.modified();
        self.dedup(false, false);
        let top = self.finest_modified();
        let ghost mut model = start;
        proof {
            assert(same_cells(self.buckets(), start));
            lemma_within_rooted(self.buckets(), start);
            assert forall|cell: u64|
                #![trigger buckets_cover(start, cell)]
                buckets_cover(start, cell) implies buckets_cover(self.buckets(), cell) by {
                assert(old(self).spec_covers(cell));
                assert(self.spec_covers(cell));
            }
        }
        match top {
            Some(first) => {
                let mut r: usize = first + 1;
                proof {
                    assert forall|k: int| r <= k < 16 implies no_complete_group(
                        #[trigger] self.buckets()[k],
                    ) by {
                        lemma_finer_unmarked(marks, 16, k);
                    }
                }
                while r > 0
                    invariant
                        r <= 16,
                        first < 16,
                        words_count_children(),
                        self.well_formed(),
                        start.len() == 16,
                        model.len() == 16,
                        same_cells(self.buckets(), model),
                        compact_down(model, r as int - 1) == compact_down(start, first as int),
                        buckets_rooted_in(self.buckets(), start),
                        forall|cell: u64|
                            #![trigger buckets_cover(start, cell)]
                            buckets_cover(start, cell) ==> buckets_cover(self.buckets(), cell),
                        forall|k: int|
                            r <= k < 16 ==> no_complete_group(#[trigger] self.buckets()[k]),
                    decreases r,
                {
                    r = r - 1;
                    let ghost cur = self.buckets();
                    let done = self.compact_bucket(r);
                    proof {
                        let now = self.buckets();
                        lemma_level_order_free(cur, model, r as int);
                        let next = compact_level(model, r as int);
                        let mine = compact_level(cur, r as int);
                        assert(same_cells(now, next)) by {
                            assert forall|k: int, x: u64| 0 <= k < 16 implies (
                            #[trigger] now[k].contains(x) <==> next[k].contains(x)) by {
                                assert(now[k].contains(x) <==> mine[k].contains(x));
                                assert(mine[k].contains(x) <==> next[k].contains(x));
                            }
                        }
                        lemma_rooted_transitive(now, cur, start);
                        assert forall|cell: u64|
                            #![trigger buckets_cover(start, cell)]
                            buckets_cover(start, cell) implies buckets_cover(now, cell) by {
                            assert(buckets_cover(cur, cell));
                        }
                        assert forall|k: int| r <= k < 16 implies no_complete_group(
                            #[trigger] now[k],
                        ) by {
                            if k > r {
                                assert(same_members(now[k], cur[k]));
                                lemma_fewer_no_complete_group(now[k], cur[k]);
                            }
                        }
                        model = next;
                    }
                    match done {
                        Ok(_) => {},
                        Err(refused) => {
                            return Err(refused);
                        },
                    }
                }
                self.clear_marks();
            },
            None => {
                proof {
                    lemma_none_modified(self.modified(), 16);
                    assert(self.modified() =~= no_marks());
                }
            },
        }
        let ghost loose = self.buckets();
        let ghost unpruned = *self;
        self.dedup(true, true);
        proof {
            let now = self.buckets();
            lemma_dedup_of_same_members(now, loose, model, true);
            lemma_within_rooted(now, loose);
            lemma_rooted_transitive(now, loose, start);
            assert forall|cell: u64| buckets_cover(start, cell) implies buckets_cover(
                now,
                cell,
            ) by {
                assert(buckets_cover(loose, cell));
                assert(unpruned.spec_covers(cell));
                assert(self.spec_covers(cell));
            }
        }
        Ok(())
    }

    /// Brings the coverage into its final form: compacted where `compact`
    /// is set, otherwise only freed of repetitions and of cells that lie
    /// inside another one. To compact, words must be able to count the
    /// children of a cell (`can_count_children`).
    pub fn finalize(&mut self, compact: bool) -> (result: Result<(), Error>)
        requires
            compact ==> words_count_children(),
        ensures
            result is Ok,
            final(self).well_formed(),
            ancestor_free(final(self).buckets()),
            forall|cell: u64|
                #![trigger old(self).spec_covers(cell)]
                #![trigger final(self).spec_covers(cell)]
                old(self).spec_covers(cell) ==> final(self).spec_covers(cell),
            buckets_rooted_in(final(self).buckets(), old(self).buckets()),
            compact ==> is_compaction_of(
                final(self).buckets(),
                old(self).buckets(),
                old(self).modified(),
            ) && final(self).modified() == no_marks() && forall|k: int|
                0 <= k < 16 ==> no_complete_group(#[trigger] final(self).buckets()[k]),
            !compact ==> is_dedup_of(final(self).buckets(), old(self).buckets(), true)
                && final(self).modified() == old(self).modified(),
            final(self).buckets() == spec_finalize(
                old(self).buckets(),
                old(self).modified(),
                compact,
            ),
            final(self).modified() == spec_finalize_marks(old(self).modified(), compact),
    {
        if compact {
            let done = self.compact();
            proof {
                lemma_dedup_is(
                    self.buckets(),
                    compact_down(old(self).buckets(), finest_below(old(self).modified(), 16)),
                    true,
                );

            }
            done
        } else {
            self.dedup(true, true);
            proof {
                lemma_dedup_is(self.buckets(), old(self).buckets(), true);
                lemma_within_rooted(self.buckets(), old(self).buckets());
            }
            Ok(())
        }
    }

    /// An empty coverage.
    pub fn new() -> (coverage: CellCoverage)
        ensures
            coverage.well_formed(),
            coverage.buckets() == empty_buckets(),
            coverage.modified() == no_marks(),
    {
        proof {
            lemma_empty_no_complete_group(Seq::<u64>::empty());
        }
        let coverage = CellCoverage {
            modified_resolutions: [false; 16],
            cells_by_resolution: [
                Vec::new(),
                Vec::new(),
                Vec::new(),
                Vec::new(),
                Vec::new(),
                Vec::new(),
                Vec::new(),
                Vec::new(),
                Vec::new(),
                Vec::new(),
                Vec::new(),
                Vec::new(),
                Vec::new(),
                Vec::new(),
                Vec::new(),
                Vec::new(),
            ],
        };
        proof {
            coverage.lemma_well_formed();
            assert forall|r: int| 0 <= r < 16 implies #[trigger] coverage.buckets()[r]
                == empty_buckets()[r] by {
                assert(coverage.buckets()[r] =~= Seq::<u64>::empty());
            }
            assert(coverage.buckets() =~= empty_buckets());
            assert(coverage.modified() =~= no_marks());
        }
        coverage
    }

    /// Puts `cell` at the end of the bucket of its resolution and marks that
    /// resolution as modified.
    pub fn insert(&mut self, cell: Cell)
        ensures
            final(self).well_formed(),
            final(self).buckets() == old(self).buckets().update(
                spec_resolution(cell@) as int,
                old(self).buckets()[spec_resolution(cell@) as int].push(cell@),
            ),
            final(self).modified() == old(self).modified().update(
                spec_resolution(cell@) as int,
                true,
            ),
            final(self).spec_covers(cell@),
            forall|other: u64|
                #![trigger old(self).spec_covers(other)]
                #![trigger final(self).spec_covers(other)]
                old(self).spec_covers(other) ==> final(self).spec_covers(other),
    {
        proof {
            use_type_invariant(&*self);
            self.lemma_well_formed();
        }
        let bits = cell.bits();
        self.push_bits(bits);
        proof {
            let r = spec_resolution(bits) as int;
            lemma_resolution_in_range(bits);
            let now = self.buckets();
            let was = old(self).buckets();
            assert(covers_cell(now[r][was[r].len() as int], bits));
            assert forall|other: u64| buckets_cover(was, other) implies buckets_cover(
                now,
                other,
            ) by {
                let (k, i) = choose|k: int, i: int|
                    0 <= k < was.len() && 0 <= i < was[k].len() && covers_cell(
                        #[trigger] was[k][i],
                        other,
                    );
                assert(covers_cell(now[k][i], other));
            }
        }
    }
    /// Marks the resolution `r` as modified.
    fn mark_modified(&mut self, r: usize)
        requires
            r < 16,
        ensures
            final(self).buckets() == old(self).buckets(),
            final(self).modified() == old(self).modified().update(r as int, true),
            final(self).well_formed(),
    {
        proof {
            use_type_invariant(&*self);
            self.lemma_well_formed();
        }
        self.modified_resolutions[r] = true;
        proof {
            use_type_invariant(&*self);
            self.lemma_well_formed();
            assert(self.buckets() =~= old(self).buckets());
        }
    }

    /// Moves the cells of `other` to the ends of the buckets of `self`.
    /// Every resolution of which cells arrive is marked as modified;
    /// `other` is left without cells, its marks as they were.
    pub fn append(&mut self, other: &mut CellCoverage)
        ensures
            final(self).well_formed(),
            final(other).well_formed(),
            forall|r: int|
                0 <= r < 16 ==> #[trigger] final(self).buckets()[r] == old(self).buckets()[r] + old(other).buckets()[r],
            forall|r: int|
                0 <= r < 16 ==> #[trigger] final(self).modified()[r] == (old(self).modified()[r]
                    || old(other).buckets()[r].len() > 0),
            forall|r: int| 0 <= r < 16 ==> (#[trigger] final(other).buckets()[r]).len() == 0,
            final(other).modified() == old(other).modified(),
    {
        proof {
            use_type_invariant(&*self);
            self.lemma_well_formed();
            use_type_invariant(&*other);
            other.lemma_well_formed();
        }
        let mut r: usize = 0;
        while r < 16
            invariant
                r <= 16,
                self.well_formed(),
                other.well_formed(),
                old(self).well_formed(),
                old(other).well_formed(),
                other.modified() == old(other).modified(),
                forall|k: int|
                    0 <= k < r ==> #[trigger] self.buckets()[k] == old(self).buckets()[k] + old(other).buckets()[k],
                forall|k: int|
                    0 <= k < r ==> #[trigger] self.modified()[k] == (old(self).modified()[k] || old(other).buckets()[k].len() > 0),
                forall|k: int| 0 <= k < r ==> (#[trigger] other.buckets()[k]).len() == 0,
                forall|k: int| r <= k < 16 ==> #[trigger] self.buckets()[k] == old(self).buckets()[k],
                forall|k: int| r <= k < 16 ==> #[trigger] self.modified()[k] == old(self).modified()[k],
                forall|k: int|
                    r <= k < 16 ==> #[trigger] other.buckets()[k] == old(other).buckets()[k],
            decreases 16 - r,
        {
            let ghost mine = self.buckets();
            let ghost marks = self.modified();
            let ghost theirs = other.buckets();
            let mut source = other.take_bucket(r);
            if source.len() > 0 {
                self.mark_modified(r);
                let mut sink = self.take_bucket(r);
                let ghost had = sink@;
                let ghost got = source@;
                sink.append(&mut source);
                proof {
                    assert forall|i: int| 0 <= i < sink@.len() implies cell_index_valid(
                        #[trigger] sink@[i],
                    ) && spec_resolution(sink@[i]) == r as u8 by {
                        if i < had.len() {
                            assert(sink@[i] == had[i]);
                        } else {
                            assert(sink@[i] == got[i - had.len()]);
                        }
                    }
                }
                self.put_bucket(r, sink);
            } else {
                assert(mine[r as int] + source@ =~= mine[r as int]);
            }
            proof {
                assert(forall|k: int| 0 <= k < 16 && k != r ==> self.buckets()[k] == mine[k]);
                assert(forall|k: int| 0 <= k < 16 && k != r ==> self.modified()[k] == marks[k]);
                assert(forall|k: int| 0 <= k < 16 && k != r ==> other.buckets()[k] == theirs[k]);
            }
            r = r + 1;
        }
    }

    /// Whether the coverage holds `cell` or one of its ancestors. Every
    /// bucket up to the cell's resolution is searched from end to end: this
    /// is for the odd question, not for many.
    pub fn covers(&self, cell: Cell) -> (covered: bool)
        ensures
            covered == self.spec_covers(cell@),
    {
        proof {
            use_type_invariant(self);
            self.lemma_well_formed();
        }
        let bits = cell.bits();
        let top = resolution_of(bits);
        let mut k: u8 = 0;
        while k <= top
            invariant
                k <= top + 1,
                top == spec_resolution(bits),
                top <= 15,
                bits == cell@,
                self.well_formed(),
                forall|j: int, i: int|
                    0 <= j < k && 0 <= i < self.buckets()[j].len() ==> !covers_cell(
                        #[trigger] self.buckets()[j][i],
                        bits,
                    ),
            decreases top + 1 - k,
        {
            let search = if k == top {
                bits
            } else {
                parent_of(bits, k)
            };
            assert(self.buckets()[k as int] == self.cells_by_resolution@[k as int]@);
            if bucket_holds(&self.cells_by_resolution[k as usize], search) {
                proof {
                    let found = self.buckets()[k as int];
                    let i = choose|i: int| 0 <= i < found.len() && found[i] == search;
                    assert(covers_cell(self.buckets()[k as int][i], bits));
                }
                return true;
            }
            proof {
                let found = self.buckets()[k as int];
                assert forall|i: int| 0 <= i < found.len() implies !covers_cell(
                    #[trigger] self.buckets()[k as int][i],
                    bits,
                ) by {
                    if covers_cell(found[i], bits) {
                        assert(spec_resolution(found[i]) == k);
                        assert(found[i] == search);
                        assert(found.contains(search));
                    }
                }
            }
            k = k + 1;
        }
        proof {
            if buckets_cover(self.buckets(), bits) {
                let (j, i) = choose|j: int, i: int|
                    0 <= j < self.buckets().len() && 0 <= i < self.buckets()[j].len()
                        && covers_cell(#[trigger] self.buckets()[j][i], bits);
                assert(spec_resolution(self.buckets()[j][i]) == j);
            }
        }
        false
    }

    /// The number of cells held, repetitions included; `usize::MAX` where
    /// the number does not fit.
    pub fn len(&self) -> (n: usize)
        ensures
            self.spec_len() <= usize::MAX ==> n == self.spec_len(),
            self.spec_len() > usize::MAX ==> n == usize::MAX,
    {
        let mut total: u128 = 0;
        let mut r: usize = 0;
        while r < 16
            invariant
                r <= 16,
                total == cells_in(self.buckets(), r as int),
                total <= r * 0x1_0000_0000_0000_0000,
            decreases 16 - r,
        {
            assert(self.buckets()[r as int] == self.cells_by_resolution@[r as int]@);
            total = total + self.cells_by_resolution[r].len() as u128;
            r = r + 1;
        }
        if total > usize::MAX as u128 {
            usize::MAX
        } else {
            total as usize
        }
    }

    /// Whether the coverage holds no cell.
    pub fn is_empty(&self) -> (empty: bool)
        ensures
            empty == (forall|r: int| 0 <= r < 16 ==> (#[trigger] self.buckets()[r]).len() == 0),
    {
        let mut r: usize = 0;
        while r < 16
            invariant
                r <= 16,
                forall|k: int| 0 <= k < r ==> (#[trigger] self.buckets()[k]).len() == 0,
            decreases 16 - r,
        {
            assert(self.buckets()[r as int] == self.cells_by_resolution@[r as int]@);
            if self.cells_by_resolution[r].len() > 0 {
                return false;
            }
            r = r + 1;
        }
        true
    }

    /// The cells of the coverage, bucket after bucket from the coarsest
    /// resolution to the finest, each bucket in its stored order.
    pub fn compacted_iter(&self) -> (cells: Vec<Cell>)
        ensures
            bits_of(cells@) == concat_below(self.buckets(), 16),
    {
        proof {
            use_type_invariant(self);
            self.lemma_well_formed();
        }
        let mut cells: Vec<Cell> = Vec::new();
        assert(bits_of(cells@) =~= Seq::<u64>::empty());
        let mut r: usize = 0;
        while r < 16
            invariant
                r <= 16,
                self.well_formed(),
                bits_of(cells@) == concat_below(self.buckets(), r as int),
            decreases 16 - r,
        {
            assert(self.buckets()[r as int] == self.cells_by_resolution@[r as int]@);
            assert(all_valid(self.buckets()[r as int]));
            push_cells(&mut cells, &self.cells_by_resolution[r]);
            r = r + 1;
        }
        cells
    }

    /// The cells of the coverage as `compacted_iter` gives them; the
    /// coverage is used up.
    pub fn into_compacted_iter(self) -> (cells: Vec<Cell>)
        ensures
            bits_of(cells@) == concat_below(self.buckets(), 16),
    {
        self.compacted_iter()
    }

    /// Every cell of the coverage down to `resolution`, replaced by its
    /// children at `resolution`: bucket after bucket from the coarsest, cell
    /// after cell, each cell's children in the order of the grid. Cells
    /// finer than `resolution` are left out.
    pub fn uncompacted_iter(&self, resolution: u8) -> (cells: Vec<Cell>)
        requires
            resolution <= 15,
        ensures
            bits_of(cells@) == expand_below(self.buckets(), resolution + 1, resolution),
            forall|i: int|
                0 <= i < cells@.len() ==> spec_resolution(#[trigger] bits_of(cells@)[i])
                    == resolution,
            forall|i: int|
                0 <= i < cells@.len() ==> self.spec_covers(#[trigger] bits_of(cells@)[i]),
    {
        proof {
            use_type_invariant(self);
            self.lemma_well_formed();
        }
        let mut cells: Vec<Cell> = Vec::new();
        assert(bits_of(cells@) =~= Seq::<u64>::empty());
        let mut r: usize = 0;
        while r <= resolution as usize
            invariant
                r <= resolution + 1,
                resolution <= 15,
                self.well_formed(),
                bits_of(cells@) == expand_below(self.buckets(), r as int, resolution),
                forall|i: int|
                    0 <= i < cells@.len() ==> spec_resolution(#[trigger] bits_of(cells@)[i])
                        == resolution,
                forall|i: int|
                    0 <= i < cells@.len() ==> self.spec_covers(#[trigger] bits_of(cells@)[i]),
            decreases resolution + 1 - r,
        {
            assert(self.buckets()[r as int] == self.cells_by_resolution@[r as int]@);
            let bucket = &self.cells_by_resolution[r];
            let ghost done = bits_of(cells@);
            let mut i: usize = 0;
            assert(bits_of(cells@) =~= done + expand_cells(bucket@, 0, resolution));
            while i < bucket.len()
                invariant
                    i <= bucket.len(),
                    r < 16,
                    resolution <= 15,
                    all_valid(bucket@),
                    bucket@ == self.buckets()[r as int],
                    self.well_formed(),
                    bits_of(cells@) == done + expand_cells(bucket@, i as int, resolution),
                    forall|k: int|
                        0 <= k < cells@.len() ==> spec_resolution(#[trigger] bits_of(cells@)[k])
                            == resolution,
                    forall|k: int|
                        0 <= k < cells@.len() ==> self.spec_covers(#[trigger] bits_of(cells@)[k]),
                decreases bucket.len() - i,
            {
                let children = children_of(bucket[i], resolution);
                let ghost before = bits_of(cells@);
                push_cells(&mut cells, &children);
                proof {
                    assert(bits_of(cells@) =~= done + expand_cells(bucket@, i + 1, resolution));
                    assert(bits_of(cells@) == before + children@);
                    assert forall|k: int| 0 <= k < cells@.len() implies spec_resolution(
                        #[trigger] bits_of(cells@)[k],
                    ) == resolution && self.spec_covers(bits_of(cells@)[k]) by {
                        if k < before.len() {
                            assert(bits_of(cells@)[k] == before[k]);
                        } else {
                            let child = children@[k - before.len()];
                            assert(bits_of(cells@)[k] == child);
                            assert(covers_cell(self.buckets()[r as int][i as int], child));
                        }
                    }
                }
                i = i + 1;
            }
            r = r + 1;
        }
        cells
    }

    /// The cells of the coverage as `uncompacted_iter` gives them; the
    /// coverage is used up.
    pub fn into_uncompacted_iter(self, resolution: u8) -> (cells: Vec<Cell>)
        requires
            resolution <= 15,
        ensures
            bits_of(cells@) == expand_below(self.buckets(), resolution + 1, resolution),
            forall|i: int|
                0 <= i < cells@.len() ==> spec_resolution(#[trigger] bits_of(cells@)[i])
                    == resolution,
            forall|i: int|
                0 <= i < cells@.len() ==> self.spec_covers(#[trigger] bits_of(cells@)[i]),
    {
        self.uncompacted_iter(resolution)
    }
}

impl Default for CellCoverage {
    /// An empty coverage.
    fn default() -> (coverage: CellCoverage)
        ensures
            coverage.well_formed(),
            coverage.buckets() == empty_buckets(),
            coverage.modified() == no_marks(),
    {
        CellCoverage::new()
    }
}

} // verus!
