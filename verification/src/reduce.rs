use crate::buckets::{
    ancestor_free, buckets_contain, buckets_cover, buckets_hold_below, buckets_rooted_in,
    empty_buckets, lemma_finalize_order_free, no_marks, same_cells, spec_finalize,
    spec_finalize_marks,
};
use crate::cell::{covers_cell, no_complete_group, words_count_children};
use crate::error::Error;
use crate::values::{place_in, CoverageMap};
use vstd::prelude::*;

verus! {

/// The buckets that hold, in their order, the cells that the first `upto`
/// maps of `maps` hold for `value`.
pub open spec fn merged_buckets(maps: Seq<CoverageMap>, upto: int, value: u64) -> Seq<Seq<u64>>
    decreases upto,
{
    if upto <= 0 {
        empty_buckets()
    } else {
        let before = merged_buckets(maps, upto - 1, value);
        Seq::new(16, |r: int| before[r] + maps[upto - 1].buckets_of(value)[r])
    }
}

/// The resolutions at which one of the first `upto` maps of `maps` holds a
/// cell for `value`.
pub open spec fn merged_marks(maps: Seq<CoverageMap>, upto: int, value: u64) -> Seq<bool>
    decreases upto,
{
    if upto <= 0 {
        no_marks()
    } else {
        let before = merged_marks(maps, upto - 1, value);
        Seq::new(16, |r: int| before[r] || maps[upto - 1].buckets_of(value)[r].len() > 0)
    }
}

/// One of the first `upto` maps of `maps` has a coverage for `value`.
pub open spec fn merged_has(maps: Seq<CoverageMap>, upto: int, value: u64) -> bool {
    exists|k: int| 0 <= k < upto && k < maps.len() && (#[trigger] maps[k]).has(value)
}

/// Every cell of `buckets` is a cell that one of the maps holds for `value`,
/// or an ancestor of one.
pub open spec fn rooted_in_maps(buckets: Seq<Seq<u64>>, maps: Seq<CoverageMap>, value: u64) -> bool {
    forall|r: int, i: int|
        0 <= r < buckets.len() && 0 <= i < buckets[r].len() ==> exists|k: int|
            0 <= k < maps.len() && buckets_hold_below(
                (#[trigger] maps[k]).buckets_of(value),
                #[trigger] buckets[r][i],
            )
}

/// The buckets and marks that a well-formed map has for a value are
/// sixteen each.
pub proof fn lemma_sixteen(map: CoverageMap, value: u64)
    requires
        map.well_formed(),
    ensures
        map.buckets_of(value).len() == 16,
        map.marks_of(value).len() == 16,
{
    if map.has(value) {
        let q = place_in(map.values(), value);
        assert(map.coverages()[q].well_formed());
    }
}

/// Merged buckets and marks are sixteen each.
pub proof fn lemma_merged_sixteen(maps: Seq<CoverageMap>, upto: int, value: u64)
    ensures
        merged_buckets(maps, upto, value).len() == 16,
        merged_marks(maps, upto, value).len() == 16,
{
}

/// The merged buckets hold the cells that the maps hold.
pub proof fn lemma_merged_members(maps: Seq<CoverageMap>, upto: int, value: u64, x: u64)
    requires
        0 <= upto <= maps.len(),
        forall|k: int| 0 <= k < upto ==> (#[trigger] maps[k]).well_formed(),
    ensures
        buckets_contain(merged_buckets(maps, upto, value), x) <==> exists|k: int|
            0 <= k < upto && buckets_contain((#[trigger] maps[k]).buckets_of(value), x),
    decreases upto,
{
    let all = merged_buckets(maps, upto, value);
    if upto > 0 {
        let before = merged_buckets(maps, upto - 1, value);
        let last = maps[upto - 1].buckets_of(value);
        lemma_merged_members(maps, upto - 1, value, x);
        lemma_merged_sixteen(maps, upto - 1, value);
        assert(maps[upto - 1].well_formed());
        lemma_sixteen(maps[upto - 1], value);
        if buckets_contain(all, x) {
            let (r, i) = choose|r: int, i: int|
                0 <= r < all.len() && 0 <= i < all[r].len() && #[trigger] all[r][i] == x;
            assert(all[r] == before[r] + last[r]);
            if i < before[r].len() {
                assert(before[r][i] == x);
                assert(buckets_contain(before, x));
                let k = choose|k: int|
                    0 <= k < upto - 1 && buckets_contain((#[trigger] maps[k]).buckets_of(value), x);
                assert(buckets_contain(maps[k].buckets_of(value), x));
            } else {
                assert(last[r][i - before[r].len()] == x);
                assert(buckets_contain(maps[upto - 1].buckets_of(value), x));
            }
        }
        if exists|k: int|
            0 <= k < upto && buckets_contain((#[trigger] maps[k]).buckets_of(value), x)
{
            let k = choose|k: int|
                0 <= k < upto && buckets_contain((#[trigger] maps[k]).buckets_of(value), x);
            if k < upto - 1 {
                assert(buckets_contain(before, x));
                let (r, i) = choose|r: int, i: int|
                    0 <= r < before.len() && 0 <= i < before[r].len() && #[trigger] before[r][i]
                        == x;
                assert(all[r] == before[r] + last[r]);
                assert(all[r][i] == x);
            } else {
                let (r, i) = choose|r: int, i: int|
                    0 <= r < last.len() && 0 <= i < last[r].len() && #[trigger] last[r][i] == x;
                assert(all[r] == before[r] + last[r]);
                assert(all[r][before[r].len() + i] == x);
            }
        }
    } else {
        if buckets_contain(all, x) {
            let (r, i) = choose|r: int, i: int|
                0 <= r < all.len() && 0 <= i < all[r].len() && #[trigger] all[r][i] == x;
        }
    }
}

/// Brings the coverages of the windows together: for every value the cells
/// that the maps hold for it are put one after the other, map after map,
/// and the coverage so made is finalized. What comes out covers every cell
/// that one of the maps covered for the value, holds no cell inside
/// another, and holds only cells of the maps or ancestors of such. To
/// compact, words must be able to count the children of a cell
/// (`can_count_children`).
pub fn combine(maps: Vec<CoverageMap>, compact: bool) -> (result: Result<CoverageMap, Error>)
    requires
        compact ==> words_count_children(),
    ensures
        result is Ok,
        result->Ok_0.well_formed(),
        forall|value: u64|
            #![trigger result->Ok_0.has(value)]
            result->Ok_0.has(value) <==> merged_has(maps@, maps@.len() as int, value),
        forall|value: u64|
            #![trigger result->Ok_0.buckets_of(value)]
            result->Ok_0.has(value) ==> result->Ok_0.buckets_of(value) == spec_finalize(
                merged_buckets(maps@, maps@.len() as int, value),
                merged_marks(maps@, maps@.len() as int, value),
                compact,
            ),
        forall|value: u64|
            #![trigger result->Ok_0.marks_of(value)]
            result->Ok_0.has(value) ==> result->Ok_0.marks_of(value) == spec_finalize_marks(
                merged_marks(maps@, maps@.len() as int, value),
                compact,
            ),
        forall|value: u64|
            #![trigger ancestor_free(result->Ok_0.buckets_of(value))]
            ancestor_free(result->Ok_0.buckets_of(value)),
        forall|value: u64, r: int|
            #![trigger result->Ok_0.buckets_of(value)[r]]
            compact && 0 <= r < 16 ==> no_complete_group(result->Ok_0.buckets_of(value)[r]),
        forall|value: u64|
            #![trigger result->Ok_0.buckets_of(value)]
            rooted_in_maps(result->Ok_0.buckets_of(value), maps@, value),
        forall|k: int, value: u64, cell: u64|
            #![trigger buckets_cover(maps@[k].buckets_of(value), cell)]
            0 <= k < maps@.len() && buckets_cover(maps@[k].buckets_of(value), cell)
                ==> buckets_cover(result->Ok_0.buckets_of(value), cell),
{
    let ghost given = maps@;
    let mut maps = maps;
    let mut all = CoverageMap::new();
    let n = maps.len();
    let mut k: usize = 0;
    while k < n
        invariant
            k <= n,
            n == maps@.len(),
            n == given.len(),
            all.well_formed(),
            forall|j: int| k <= j < n ==> #[trigger] maps@[j] == given[j],
            forall|j: int| 0 <= j < k ==> (#[trigger] given[j]).well_formed(),
            forall|value: u64|
                #![trigger all.has(value)]
                all.has(value) <==> merged_has(given, k as int, value),
            forall|value: u64, r: int|
                #![trigger all.buckets_of(value)[r]]
                0 <= r < 16 ==> all.buckets_of(value)[r] == merged_buckets(given, k as int, value)[r],
            forall|value: u64, r: int|
                #![trigger all.marks_of(value)[r]]
                0 <= r < 16 ==> all.marks_of(value)[r] == merged_marks(given, k as int, value)[r],
        decreases n - k,
    {
        let mut one = CoverageMap::new();
        core::mem::swap(&mut maps[k], &mut one);
        let ghost before = all;
        let _ = one.len();
        all.absorb(one);
        proof {
            assert(one == given[k as int]);
            assert forall|value: u64|
                #![trigger all.has(value)]
                all.has(value) <==> merged_has(given, k + 1, value) by {
                if merged_has(given, k + 1, value) {
                    let j = choose|j: int|
                        0 <= j < k + 1 && j < given.len() && (#[trigger] given[j]).has(value);
                    if j < k {
                        assert(merged_has(given, k as int, value));
                    }
                }
                if merged_has(given, k as int, value) {
                    let j = choose|j: int|
                        0 <= j < k && j < given.len() && (#[trigger] given[j]).has(value);
                    assert(given[j].has(value));
                }
                if one.has(value) {
                    assert(given[k as int].has(value));
                }
                assert(before.has(value) <==> merged_has(given, k as int, value));
            }
            assert forall|value: u64, r: int|
                #![trigger all.buckets_of(value)[r]]
                0 <= r < 16 implies all.buckets_of(value)[r] == merged_buckets(
                given,
                k + 1,
                value,
            )[r] by {
                assert(before.buckets_of(value)[r] == merged_buckets(given, k as int, value)[r]);
            }
            assert forall|value: u64, r: int|
                #![trigger all.marks_of(value)[r]]
                0 <= r < 16 implies all.marks_of(value)[r] == merged_marks(given, k + 1, value)[r] by {
                assert(before.marks_of(value)[r] == merged_marks(given, k as int, value)[r]);
            }
        }
        k = k + 1;
    }
    let ghost loose = all;
    let done = all.finalize(compact);
    proof {
        assert forall|value: u64|
            #![trigger all.has(value)]
            all.has(value) <==> merged_has(given, n as int, value) by {
            assert(loose.has(value) <==> merged_has(given, n as int, value));
        }
        assert forall|value: u64|
            #![trigger all.has(value)]
            #![trigger all.buckets_of(value)]
            #![trigger all.marks_of(value)]
            all.has(value) implies loose.buckets_of(value) == merged_buckets(
            given,
            n as int,
            value,
        ) && loose.marks_of(value) == merged_marks(given, n as int, value) && loose.has(value) by {
            assert(loose.has(value));
            lemma_sixteen(loose, value);
            lemma_merged_sixteen(given, n as int, value);
            assert forall|r: int| 0 <= r < 16 implies loose.buckets_of(value)[r] == merged_buckets(
                given,
                n as int,
                value,
            )[r] by {}
            assert(loose.buckets_of(value) =~= merged_buckets(given, n as int, value));
            assert forall|r: int| 0 <= r < 16 implies loose.marks_of(value)[r] == merged_marks(
                given,
                n as int,
                value,
            )[r] by {}
            assert(loose.marks_of(value) =~= merged_marks(given, n as int, value));
        }
        assert forall|value: u64| loose.buckets_of(value) == merged_buckets(
            given,
            n as int,
            value,
        ) by {
            lemma_sixteen(loose, value);
            lemma_merged_sixteen(given, n as int, value);
            assert forall|r: int| 0 <= r < 16 implies loose.buckets_of(value)[r] == merged_buckets(
                given,
                n as int,
                value,
            )[r] by {}
            assert(loose.buckets_of(value) =~= merged_buckets(given, n as int, value));
        }
        assert forall|value: u64|
            #![trigger all.buckets_of(value)]
            rooted_in_maps(all.buckets_of(value), given, value) by {
            let now = all.buckets_of(value);
            let was = loose.buckets_of(value);
            assert(buckets_rooted_in(now, was));
            assert forall|r: int, i: int|
                0 <= r < now.len() && 0 <= i < now[r].len() implies exists|k: int|
                0 <= k < given.len() && buckets_hold_below(
                    (#[trigger] given[k]).buckets_of(value),
                    #[trigger] now[r][i],
                ) by {
                assert(buckets_hold_below(was, now[r][i]));
                let (r1, i1) = choose|r1: int, i1: int|
                    0 <= r1 < was.len() && 0 <= i1 < was[r1].len() && covers_cell(
                        now[r][i],
                        #[trigger] was[r1][i1],
                    );
                assert(buckets_contain(was, was[r1][i1]));
                lemma_merged_members(given, n as int, value, was[r1][i1]);
                let k = choose|k: int|
                    0 <= k < n && buckets_contain(
                        (#[trigger] given[k]).buckets_of(value),
                        was[r1][i1],
                    );
                let mine = given[k].buckets_of(value);
                let (r2, i2) = choose|r2: int, i2: int|
                    0 <= r2 < mine.len() && 0 <= i2 < mine[r2].len() && #[trigger] mine[r2][i2]
                        == was[r1][i1];
                assert(covers_cell(now[r][i], mine[r2][i2]));
                assert(buckets_hold_below(given[k].buckets_of(value), now[r][i]));
            }
        }
        assert forall|k: int, value: u64, cell: u64|
            #![trigger buckets_cover(given[k].buckets_of(value), cell)]
            0 <= k < given.len() && buckets_cover(
                given[k].buckets_of(value),
                cell,
            ) implies buckets_cover(all.buckets_of(value), cell) by {
            let mine = given[k].buckets_of(value);
            let (r, i) = choose|r: int, i: int|
                0 <= r < mine.len() && 0 <= i < mine[r].len() && covers_cell(
                    #[trigger] mine[r][i],
                    cell,
                );
            assert(buckets_contain(mine, mine[r][i]));
            lemma_merged_members(given, n as int, value, mine[r][i]);
            let was = loose.buckets_of(value);
            assert(buckets_contain(was, mine[r][i]));
            let (r1, i1) = choose|r1: int, i1: int|
                0 <= r1 < was.len() && 0 <= i1 < was[r1].len() && #[trigger] was[r1][i1]
                    == mine[r][i];
            assert(covers_cell(was[r1][i1], cell));
            assert(buckets_cover(was, cell));
            assert(buckets_cover(all.buckets_of(value), cell));
        }
    }
    match done {
        Ok(_) => Ok(all),
        Err(refused) => Err(refused),
    }
}

/// The coverage that two maps combine into for a value does not depend on
/// which of the two comes first.
pub proof fn lemma_combine_commutes(one: CoverageMap, other: CoverageMap, value: u64, compact: bool)
    requires
        one.well_formed(),
        other.well_formed(),
    ensures
        spec_finalize(
            merged_buckets(seq![one, other], 2, value),
            merged_marks(seq![one, other], 2, value),
            compact,
        ) == spec_finalize(
            merged_buckets(seq![other, one], 2, value),
            merged_marks(seq![other, one], 2, value),
            compact,
        ),
{
    let ahead = seq![one, other];
    let behind = seq![other, one];
    reveal_with_fuel(merged_buckets, 3);
    reveal_with_fuel(merged_marks, 3);
    lemma_sixteen(one, value);
    lemma_sixteen(other, value);
    let mine = one.buckets_of(value);
    let theirs = other.buckets_of(value);
    let a = merged_buckets(ahead, 2, value);
    let b = merged_buckets(behind, 2, value);
    assert(ahead[0] == one && ahead[1] == other && behind[0] == other && behind[1] == one);
    assert forall|r: int| 0 <= r < 16 implies #[trigger] a[r] == mine[r] + theirs[r] && b[r]
        == theirs[r] + mine[r] by {
        assert(Seq::<u64>::empty() + mine[r] =~= mine[r]);
        assert(Seq::<u64>::empty() + theirs[r] =~= theirs[r]);
    }
    assert forall|r: int, x: u64| 0 <= r < 16 implies (#[trigger] a[r].contains(x)
        <==> b[r].contains(x)) by {
        if a[r].contains(x) {
            let i = choose|i: int| 0 <= i < a[r].len() && a[r][i] == x;
            if i < mine[r].len() {
                assert(b[r][theirs[r].len() + i] == x);
            } else {
                assert(b[r][i - mine[r].len()] == x);
            }
        }
        if b[r].contains(x) {
            let i = choose|i: int| 0 <= i < b[r].len() && b[r][i] == x;
            if i < theirs[r].len() {
                assert(a[r][mine[r].len() + i] == x);
            } else {
                assert(a[r][i - theirs[r].len()] == x);
            }
        }
    }
    assert(same_cells(a, b));
    assert(merged_marks(ahead, 2, value) =~= merged_marks(behind, 2, value));
    lemma_finalize_order_free(a, b, merged_marks(ahead, 2, value), compact);
}

} // verus!
