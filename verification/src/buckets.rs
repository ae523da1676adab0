use crate::cell::{
    cell_children, cell_index_valid, compacted_cells, covers_cell, holds_all_children,
    is_ancestor, lemma_ancestor_transitive, lemma_covers_transitive, lemma_parent_resolution,
    no_complete_group, spec_parent, spec_resolution, Cell,
};
use crate::sorting::{
    ascending_members, lemma_ascending_members, lemma_ascending_same,
    lemma_strictly_ascending_unique, same_members, strictly_ascending,
};
use vstd::prelude::*;

verus! {

/// Sixteen buckets, each holding cell indexes of its own resolution only.
pub open spec fn buckets_well_formed(buckets: Seq<Seq<u64>>) -> bool {
    &&& buckets.len() == 16
    &&& forall|r: int, i: int|
        0 <= r < 16 && 0 <= i < buckets[r].len() ==> {
            &&& cell_index_valid(#[trigger] buckets[r][i])
            &&& spec_resolution(buckets[r][i]) == r
        }
}

/// Sixteen buckets without cells.
pub open spec fn empty_buckets() -> Seq<Seq<u64>> {
    Seq::new(16, |r: int| Seq::<u64>::empty())
}

/// Sixteen marks, none set.
pub open spec fn no_marks() -> Seq<bool> {
    Seq::new(16, |r: int| false)
}

/// `cell` lies in one of the buckets.
pub open spec fn buckets_contain(buckets: Seq<Seq<u64>>, cell: u64) -> bool {
    exists|r: int, i: int|
        0 <= r < buckets.len() && 0 <= i < buckets[r].len() && #[trigger] buckets[r][i] == cell
}

/// One of the buckets holds `cell` or an ancestor of it.
pub open spec fn buckets_cover(buckets: Seq<Seq<u64>>, cell: u64) -> bool {
    exists|r: int, i: int|
        0 <= r < buckets.len() && 0 <= i < buckets[r].len() && covers_cell(
            #[trigger] buckets[r][i],
            cell,
        )
}

/// `above` is a cell of the buckets or an ancestor of one.
pub open spec fn buckets_hold_below(buckets: Seq<Seq<u64>>, above: u64) -> bool {
    exists|r: int, i: int|
        0 <= r < buckets.len() && 0 <= i < buckets[r].len() && covers_cell(
            above,
            #[trigger] buckets[r][i],
        )
}

/// One of the buckets holds an ancestor of `cell`.
pub open spec fn buckets_hold_ancestor(buckets: Seq<Seq<u64>>, cell: u64) -> bool {
    exists|r: int, i: int|
        0 <= r < buckets.len() && 0 <= i < buckets[r].len() && is_ancestor(
            #[trigger] buckets[r][i],
            cell,
        )
}

/// No cell of the buckets is an ancestor of another one.
pub open spec fn ancestor_free(buckets: Seq<Seq<u64>>) -> bool {
    forall|k: int, i: int|
        0 <= k < buckets.len() && 0 <= i < buckets[k].len() ==> !buckets_hold_ancestor(
            buckets,
            #[trigger] buckets[k][i],
        )
}

/// Every bucket of `inner` holds only cells that the same bucket of `outer`
/// holds.
pub open spec fn buckets_within(inner: Seq<Seq<u64>>, outer: Seq<Seq<u64>>) -> bool {
    &&& inner.len() == outer.len()
    &&& forall|k: int, x: u64|
        0 <= k < inner.len() && #[trigger] inner[k].contains(x) ==> outer[k].contains(x)
}

/// Every cell of `after` is a cell of `before` or an ancestor of one.
pub open spec fn buckets_rooted_in(after: Seq<Seq<u64>>, before: Seq<Seq<u64>>) -> bool {
    forall|r: int, i: int|
        0 <= r < after.len() && 0 <= i < after[r].len() ==> buckets_hold_below(
            before,
            #[trigger] after[r][i],
        )
}

/// No bucket that is not marked holds all the children of a cell: what has
/// not changed since the last compaction is still compact.
pub open spec fn settled(buckets: Seq<Seq<u64>>, modified: Seq<bool>) -> bool {
    forall|k: int| 0 <= k < 16 && !modified[k] ==> no_complete_group(#[trigger] buckets[k])
}

/// Cells that are all among cells without a complete group of children
/// have no complete group either.
pub proof fn lemma_fewer_no_complete_group(fewer: Seq<u64>, more: Seq<u64>)
    requires
        forall|x: u64| fewer.contains(x) ==> more.contains(x),
        no_complete_group(more),
    ensures
        no_complete_group(fewer),
{
    assert forall|parent: u64|
        cell_index_valid(parent) && spec_resolution(parent) < 15 implies !#[trigger] holds_all_children(
        fewer,
        parent,
    ) by {
        if holds_all_children(fewer, parent) {
            let children = cell_children(parent, (spec_resolution(parent) + 1) as u8);
            assert forall|i: int| 0 <= i < children.len() implies more.contains(
                #[trigger] children[i],
            ) by {
                assert(fewer.contains(children[i]));
            }
            assert(holds_all_children(more, parent));
        }
    }
}

/// Where nothing is held, no complete group is.
pub proof fn lemma_empty_no_complete_group(cells: Seq<u64>)
    requires
        cells.len() == 0,
    ensures
        no_complete_group(cells),
{
    assert forall|parent: u64|
        cell_index_valid(parent) && spec_resolution(parent) < 15 implies !#[trigger] holds_all_children(
        cells,
        parent,
    ) by {
        if holds_all_children(cells, parent) {
            let children = cell_children(parent, (spec_resolution(parent) + 1) as u8);
            assert(cells.contains(children[0]));
        }
    }
}

/// No resolution finer than the finest marked one is marked.
pub proof fn lemma_finer_unmarked(modified: Seq<bool>, n: int, k: int)
    requires
        finest_below(modified, n) < k < n,
    ensures
        !modified[k],
    decreases n,
{
    if n > 0 && k < n - 1 {
        lemma_finer_unmarked(modified, n - 1, k);
    }
}

/// The number of cells in the first `upto` buckets.
pub open spec fn cells_in(buckets: Seq<Seq<u64>>, upto: int) -> int
    decreases upto,
{
    if upto <= 0 {
        0
    } else {
        cells_in(buckets, upto - 1) + buckets[upto - 1].len()
    }
}

/// The number of buckets among the first `upto` that hold a cell.
pub open spec fn occupied_in(buckets: Seq<Seq<u64>>, upto: int) -> int
    decreases upto,
{
    if upto <= 0 {
        0
    } else {
        occupied_in(buckets, upto - 1) + if buckets[upto - 1].len() > 0 {
            1int
        } else {
            0int
        }
    }
}

/// The first `upto` buckets, one after the other.
pub open spec fn concat_below(buckets: Seq<Seq<u64>>, upto: int) -> Seq<u64>
    decreases upto,
{
    if upto <= 0 {
        Seq::empty()
    } else {
        concat_below(buckets, upto - 1) + buckets[upto - 1]
    }
}

/// The children at `target` of each of the first `upto` members of `cells`,
/// one cell's children after the other's.
pub open spec fn expand_cells(cells: Seq<u64>, upto: int, target: u8) -> Seq<u64>
    decreases upto,
{
    if upto <= 0 {
        Seq::empty()
    } else {
        expand_cells(cells, upto - 1, target) + cell_children(cells[upto - 1], target)
    }
}

/// The children at `target` of every cell of the first `upto` buckets, one
/// bucket after the other.
pub open spec fn expand_below(buckets: Seq<Seq<u64>>, upto: int, target: u8) -> Seq<u64>
    decreases upto,
{
    if upto <= 0 {
        Seq::empty()
    } else {
        expand_below(buckets, upto - 1, target) + expand_cells(
            buckets[upto - 1],
            buckets[upto - 1].len() as int,
            target,
        )
    }
}

/// The indexes of the cells of `cells`, in their order.
pub open spec fn bits_of(cells: Seq<Cell>) -> Seq<u64> {
    cells.map_values(|cell: Cell| cell@)
}

/// What one bucket of `inner` holds or covers, `outer` holds or covers too.
pub(crate) proof fn lemma_within_covers(inner: Seq<Seq<u64>>, outer: Seq<Seq<u64>>, x: u64)
    requires
        buckets_within(inner, outer),
    ensures
        buckets_cover(inner, x) ==> buckets_cover(outer, x),
        buckets_hold_ancestor(inner, x) ==> buckets_hold_ancestor(outer, x),
{
    if buckets_cover(inner, x) {
        let (k, i) = choose|k: int, i: int|
            0 <= k < inner.len() && 0 <= i < inner[k].len() && covers_cell(
                #[trigger] inner[k][i],
                x,
            );
        assert(inner[k].contains(inner[k][i]));
        let j = choose|j: int| 0 <= j < outer[k].len() && outer[k][j] == inner[k][i];
        assert(covers_cell(outer[k][j], x));
    }
    if buckets_hold_ancestor(inner, x) {
        let (k, i) = choose|k: int, i: int|
            0 <= k < inner.len() && 0 <= i < inner[k].len() && is_ancestor(
                #[trigger] inner[k][i],
                x,
            );
        assert(inner[k].contains(inner[k][i]));
        let j = choose|j: int| 0 <= j < outer[k].len() && outer[k][j] == inner[k][i];
        assert(is_ancestor(outer[k][j], x));
    }
}

/// Buckets are rooted in buckets that hold all their cells.
pub proof fn lemma_within_rooted(inner: Seq<Seq<u64>>, outer: Seq<Seq<u64>>)
    requires
        buckets_within(inner, outer),
    ensures
        buckets_rooted_in(inner, outer),
{
    assert forall|r: int, i: int|
        0 <= r < inner.len() && 0 <= i < inner[r].len() implies buckets_hold_below(
        outer,
        #[trigger] inner[r][i],
    ) by {
        assert(inner[r].contains(inner[r][i]));
        let j = choose|j: int| 0 <= j < outer[r].len() && outer[r][j] == inner[r][i];
        assert(covers_cell(inner[r][i], outer[r][j]));
    }
}

/// Buckets rooted in buckets that are rooted in others are rooted in
/// those.
pub proof fn lemma_rooted_transitive(a: Seq<Seq<u64>>, b: Seq<Seq<u64>>, c: Seq<Seq<u64>>)
    requires
        buckets_rooted_in(a, b),
        buckets_rooted_in(b, c),
    ensures
        buckets_rooted_in(a, c),
{
    assert forall|r: int, i: int|
        0 <= r < a.len() && 0 <= i < a[r].len() implies buckets_hold_below(
        c,
        #[trigger] a[r][i],
    ) by {
        assert(buckets_hold_below(b, a[r][i]));
        let (r1, i1) = choose|r1: int, i1: int|
            0 <= r1 < b.len() && 0 <= i1 < b[r1].len() && covers_cell(
                a[r][i],
                #[trigger] b[r1][i1],
            );
        assert(buckets_hold_below(c, b[r1][i1]));
        let (r2, i2) = choose|r2: int, i2: int|
            0 <= r2 < c.len() && 0 <= i2 < c[r2].len() && covers_cell(
                b[r1][i1],
                #[trigger] c[r2][i2],
            );
        lemma_covers_transitive(a[r][i], b[r1][i1], c[r2][i2]);
    }
}

/// Counting more buckets never counts fewer occupied ones.
pub(crate) proof fn lemma_occupied_grows(buckets: Seq<Seq<u64>>, fewer: int, more: int)
    requires
        fewer <= more,
    ensures
        occupied_in(buckets, fewer) <= occupied_in(buckets, more),
        0 <= occupied_in(buckets, fewer),
    decreases more - fewer, more,
{
    if fewer < more {
        lemma_occupied_grows(buckets, fewer, more - 1);
    } else if fewer > 0 {
        lemma_occupied_grows(buckets, fewer - 1, fewer - 1);
    }
}

/// Two buckets that hold cells are counted as two.
pub(crate) proof fn lemma_two_occupied(buckets: Seq<Seq<u64>>, first: int, second: int, upto: int)
    requires
        0 <= first < second < upto,
        buckets[first].len() > 0,
        buckets[second].len() > 0,
    ensures
        occupied_in(buckets, upto) >= 2,
{
    lemma_occupied_grows(buckets, 0, first);
    assert(occupied_in(buckets, first + 1) >= 1);
    lemma_occupied_grows(buckets, first + 1, second);
    assert(occupied_in(buckets, second + 1) >= 2);
    lemma_occupied_grows(buckets, second + 1, upto);
}

/// What `dedup` makes of the buckets `before`: each bucket strictly
/// ascending, holding the cells that it held, but for those that have an
/// ancestor in `before` where `parents` is set.
pub open spec fn is_dedup_of(after: Seq<Seq<u64>>, before: Seq<Seq<u64>>, parents: bool) -> bool {
    &&& after.len() == 16
    &&& forall|r: int| 0 <= r < 16 ==> strictly_ascending(#[trigger] after[r])
    &&& forall|r: int, cell: u64|
        0 <= r < 16 ==> (#[trigger] after[r].contains(cell) <==> before[r].contains(cell) && !(
        parents && buckets_hold_ancestor(before, cell)))
}

/// The cells of the bucket of resolution `r` that `dedup` keeps.
pub open spec fn kept_cells(buckets: Seq<Seq<u64>>, r: int, parents: bool) -> Seq<u64> {
    buckets[r].filter(|cell: u64| !(parents && buckets_hold_ancestor(buckets, cell)))
}

/// What `dedup` makes of the buckets.
pub open spec fn spec_dedup(buckets: Seq<Seq<u64>>, parents: bool) -> Seq<Seq<u64>> {
    Seq::new(16, |r: int| ascending_members(kept_cells(buckets, r, parents)))
}

/// `cell` lies in one of the first `upto` buckets.
pub open spec fn held_below(buckets: Seq<Seq<u64>>, upto: int, cell: u64) -> bool {
    exists|k: int, i: int|
        0 <= k < upto && k < buckets.len() && 0 <= i < buckets[k].len() && #[trigger] buckets[k][i]
            == cell
}

/// One of the first `upto` buckets holds `cell` or an ancestor of it.
pub open spec fn covered_below(buckets: Seq<Seq<u64>>, upto: int, cell: u64) -> bool {
    exists|k: int, i: int|
        0 <= k < upto && k < buckets.len() && 0 <= i < buckets[k].len() && covers_cell(
            #[trigger] buckets[k][i],
            cell,
        )
}

/// One of the resolutions of `cell`'s ancestors, or its own, leads to a
/// member of `seen`.
pub open spec fn leads_into(seen: Set<u64>, cell: u64) -> bool {
    exists|k: int|
        0 <= k <= spec_resolution(cell) && seen.contains(#[trigger] spec_parent(cell, k as u8))
}

/// `x` is a member of `cells` at a place from `from` up to, not including,
/// `upto`.
pub open spec fn found_between(cells: Seq<u64>, from: int, upto: int, x: u64) -> bool {
    exists|j: int| from <= j < upto && 0 <= j < cells.len() && cells[j] == x
}

/// Where `seen` holds the kept cells of the buckets below `r`, and these
/// cover all that the buckets below `r` held before, a cell of resolution
/// `r` leads into `seen` exactly when the buckets held an ancestor of it
/// before.
pub(crate) proof fn lemma_seen_matches_ancestors(
    cur: Seq<Seq<u64>>,
    mid: Seq<Seq<u64>>,
    seen: Set<u64>,
    r: int,
    c: u64,
)
    requires
        0 <= r < 16,
        buckets_well_formed(cur),
        buckets_well_formed(mid),
        forall|x: u64| seen.contains(x) <==> held_below(cur, r, x),
        forall|k: int, x: u64| 0 <= k < r && #[trigger] cur[k].contains(x) ==> mid[k].contains(x),
        forall|k: int, i: int|
            0 <= k < r && 0 <= i < mid[k].len() ==> covered_below(cur, r, #[trigger] mid[k][i]),
        spec_resolution(c) == r,
    ensures
        leads_into(seen, c) <==> buckets_hold_ancestor(mid, c),
{
    if leads_into(seen, c) {
        let k0 = choose|k: int|
            0 <= k <= spec_resolution(c) && seen.contains(#[trigger] spec_parent(c, k as u8));
        let a = spec_parent(c, k0 as u8);
        assert(held_below(cur, r, a));
        let (k1, i1) = choose|k: int, i: int|
            0 <= k < r && k < cur.len() && 0 <= i < cur[k].len() && #[trigger] cur[k][i] == a;
        assert(spec_resolution(cur[k1][i1]) == k1);
        lemma_parent_resolution(c, k0 as u8);
        assert(is_ancestor(a, c));
        assert(cur[k1].contains(a));
        assert(mid[k1].contains(a));
        let j = choose|j: int| 0 <= j < mid[k1].len() && mid[k1][j] == a;
        assert(is_ancestor(mid[k1][j], c));
    }
    if buckets_hold_ancestor(mid, c) {
        let (j, i) = choose|j: int, i: int|
            0 <= j < mid.len() && 0 <= i < mid[j].len() && is_ancestor(#[trigger] mid[j][i], c);
        let a = mid[j][i];
        assert(spec_resolution(a) == j);
        assert(covered_below(cur, r, mid[j][i]));
        let (k2, i2) = choose|k: int, i: int|
            0 <= k < r && k < cur.len() && 0 <= i < cur[k].len() && covers_cell(
                #[trigger] cur[k][i],
                a,
            );
        let top = cur[k2][i2];
        if top != a {
            lemma_ancestor_transitive(top, a, c);
        }
        assert(is_ancestor(top, c));
        assert(held_below(cur, r, top));
        let level = spec_resolution(top) as int;
        assert(spec_parent(c, level as u8) == top);
    }
}

/// `dedup` looks only at which cells each bucket holds: buckets with the
/// same members have the same outcome.
pub proof fn lemma_dedup_of_same_members(
    after: Seq<Seq<u64>>,
    before: Seq<Seq<u64>>,
    other: Seq<Seq<u64>>,
    parents: bool,
)
    requires
        is_dedup_of(after, before, parents),
        buckets_within(before, other),
        buckets_within(other, before),
        before.len() == 16,
    ensures
        is_dedup_of(after, other, parents),
{
    assert forall|r: int, cell: u64| 0 <= r < 16 implies (#[trigger] after[r].contains(cell)
        <==> other[r].contains(cell) && !(parents && buckets_hold_ancestor(other, cell))) by {
        lemma_within_covers(before, other, cell);
        lemma_within_covers(other, before, cell);
    }
}

/// After a `dedup` that removes covered cells, no cell that is left lies
/// inside another one.
pub proof fn lemma_dedup_ancestor_free(after: Seq<Seq<u64>>, before: Seq<Seq<u64>>)
    requires
        is_dedup_of(after, before, true),
        before.len() == 16,
    ensures
        ancestor_free(after),
        buckets_within(after, before),
{
    assert(buckets_within(after, before));
    assert forall|k: int, i: int|
        0 <= k < after.len() && 0 <= i < after[k].len() implies !buckets_hold_ancestor(
        after,
        #[trigger] after[k][i],
    ) by {
        assert(after[k].contains(after[k][i]));
        lemma_within_covers(after, before, after[k][i]);
    }
}

/// A `dedup` changes nothing in buckets that are strictly ascending and,
/// where covered cells are to go, hold no cell inside another one.
pub proof fn lemma_dedup_of_clean(after: Seq<Seq<u64>>, before: Seq<Seq<u64>>, parents: bool)
    requires
        is_dedup_of(after, before, parents),
        before.len() == 16,
        forall|r: int| 0 <= r < 16 ==> strictly_ascending(#[trigger] before[r]),
        parents ==> ancestor_free(before),
    ensures
        after == before,
{
    assert forall|r: int| 0 <= r < 16 implies #[trigger] after[r] == before[r] by {
        assert forall|x: u64| after[r].contains(x) <==> before[r].contains(x) by {
            if before[r].contains(x) {
                let i = choose|i: int| 0 <= i < before[r].len() && before[r][i] == x;
                assert(!(parents && buckets_hold_ancestor(before, before[r][i])));
            }
        }
        lemma_strictly_ascending_unique(after[r], before[r]);
    }
    assert(after =~= before);
}

/// The outcome of `dedup` is fixed by the buckets it starts from.
pub proof fn lemma_dedup_unique(
    one: Seq<Seq<u64>>,
    other: Seq<Seq<u64>>,
    before: Seq<Seq<u64>>,
    parents: bool,
)
    requires
        is_dedup_of(one, before, parents),
        is_dedup_of(other, before, parents),
    ensures
        one == other,
{
    assert forall|r: int| 0 <= r < 16 implies #[trigger] one[r] == other[r] by {
        assert forall|x: u64| one[r].contains(x) <==> other[r].contains(x) by {}
        lemma_strictly_ascending_unique(one[r], other[r]);
    }
    assert(one =~= other);
}

/// Buckets that `dedup` may have made of `before` are the buckets that it
/// makes.
pub proof fn lemma_dedup_is(after: Seq<Seq<u64>>, before: Seq<Seq<u64>>, parents: bool)
    requires
        is_dedup_of(after, before, parents),
    ensures
        after == spec_dedup(before, parents),
{
    assert forall|r: int| 0 <= r < 16 implies #[trigger] after[r] == spec_dedup(
        before,
        parents,
    )[r] by {
        let pred = |cell: u64| !(parents && buckets_hold_ancestor(before, cell));
        let kept = kept_cells(before, r, parents);
        assert forall|x: u64| after[r].contains(x) <==> kept.contains(x) by {
            if kept.contains(x) {
                before[r].lemma_filter_contains_rev(pred, x);
                let i = choose|i: int| 0 <= i < kept.len() && kept[i] == x;
                before[r].lemma_filter_pred(pred, i);
            }
            if before[r].contains(x) && pred(x) {
                let i = choose|i: int| 0 <= i < before[r].len() && before[r][i] == x;
                before[r].lemma_filter_contains(pred, i);
            }
        }
        lemma_ascending_members(after[r], kept);
    }
    assert(after =~= spec_dedup(before, parents));
}

/// The members of `cells` that have the resolution `k`, in their order.
pub open spec fn at_resolution(cells: Seq<u64>, k: int) -> Seq<u64> {
    cells.filter(|cell: u64| spec_resolution(cell) == k)
}

/// What compacting the bucket of resolution `r` makes of the buckets: the
/// bucket is emptied, its cells are compacted, and every cell that comes out
/// is put at the end of the bucket of its resolution.
pub open spec fn compact_level(buckets: Seq<Seq<u64>>, r: int) -> Seq<Seq<u64>> {
    let found = compacted_cells(ascending_members(buckets[r]));
    Seq::new(
        16,
        |k: int|
            if k == r {
                at_resolution(found, k)
            } else {
                buckets[k] + at_resolution(found, k)
            },
    )
}

/// The buckets after the buckets of resolution `r`, `r - 1`, ... 0 have been
/// compacted, one after the other.
pub open spec fn compact_down(buckets: Seq<Seq<u64>>, r: int) -> Seq<Seq<u64>>
    decreases r + 1,
{
    if r < 0 {
        buckets
    } else {
        compact_down(compact_level(buckets, r), r - 1)
    }
}

/// The finest of the first `n` resolutions that is marked in `modified`, or
/// -1 where none is.
pub open spec fn finest_below(modified: Seq<bool>, n: int) -> int
    decreases n,
{
    if n <= 0 {
        -1
    } else if modified[n - 1] {
        n - 1
    } else {
        finest_below(modified, n - 1)
    }
}

/// What `compact` makes of the buckets `before` with the marks `modified`:
/// from the finest modified resolution down the buckets are compacted, then
/// repetitions and covered cells go.
pub open spec fn is_compaction_of(
    after: Seq<Seq<u64>>,
    before: Seq<Seq<u64>>,
    modified: Seq<bool>,
) -> bool {
    is_dedup_of(after, compact_down(before, finest_below(modified, 16)), true)
}

/// What `compact` makes of the buckets with the marks `modified`.
pub open spec fn spec_compact(buckets: Seq<Seq<u64>>, modified: Seq<bool>) -> Seq<Seq<u64>> {
    spec_dedup(compact_down(buckets, finest_below(modified, 16)), true)
}

/// What `finalize` makes of the buckets with the marks `modified`.
pub open spec fn spec_finalize(buckets: Seq<Seq<u64>>, modified: Seq<bool>, compact: bool) -> Seq<
    Seq<u64>,
> {
    if compact {
        spec_compact(buckets, modified)
    } else {
        spec_dedup(buckets, true)
    }
}

/// The marks that `finalize` leaves: none after a compaction, otherwise
/// those that were there.
pub open spec fn spec_finalize_marks(modified: Seq<bool>, compact: bool) -> Seq<bool> {
    if compact {
        Seq::new(16, |r: int| false)
    } else {
        modified
    }
}

/// The cells of resolution `k` among `cells` are the members of `cells`
/// with that resolution.
pub proof fn lemma_at_resolution_members(cells: Seq<u64>, k: int, x: u64)
    ensures
        at_resolution(cells, k).contains(x) <==> cells.contains(x) && spec_resolution(x) == k,
{
    let pred = |cell: u64| spec_resolution(cell) == k;
    if at_resolution(cells, k).contains(x) {
        cells.lemma_filter_contains_rev(pred, x);
        let i = choose|i: int| 0 <= i < cells.filter(pred).len() && cells.filter(pred)[i] == x;
        cells.lemma_filter_pred(pred, i);
    }
    if cells.contains(x) && spec_resolution(x) == k {
        let i = choose|i: int| 0 <= i < cells.len() && cells[i] == x;
        cells.lemma_filter_contains(pred, i);
    }
}

/// Where no resolution is marked, none of the first `n` is.
pub(crate) proof fn lemma_none_modified(modified: Seq<bool>, n: int)
    requires
        finest_below(modified, n) == -1,
    ensures
        forall|r: int| 0 <= r < n ==> !modified[r],
    decreases n,
{
    if n > 0 {
        lemma_none_modified(modified, n - 1);
    }
}

/// Where none of the first `n` resolutions is marked, there is no finest
/// marked one.
pub proof fn lemma_finest_of_unmarked(modified: Seq<bool>, n: int)
    requires
        forall|r: int| 0 <= r < n ==> !modified[r],
    ensures
        finest_below(modified, n) == -1,
    decreases n,
{
    if n > 0 {
        lemma_finest_of_unmarked(modified, n - 1);
    }
}

/// Compacting level after level leaves sixteen buckets.
pub proof fn lemma_compact_down_len(buckets: Seq<Seq<u64>>, r: int)
    requires
        buckets.len() == 16,
    ensures
        compact_down(buckets, r).len() == 16,
    decreases r + 1,
{
    if r >= 0 {
        lemma_compact_down_len(compact_level(buckets, r), r - 1);
    }
}

/// One level of compaction, on buckets `cur` that hold what the buckets
/// `model` hold: after the bucket `r` of `cur` was emptied and the cells
/// `found` were spread over the buckets, `now` again holds what the model
/// holds after that level.
pub(crate) proof fn lemma_level_step(
    cur: Seq<Seq<u64>>,
    model: Seq<Seq<u64>>,
    now: Seq<Seq<u64>>,
    sorted: Seq<u64>,
    found: Seq<u64>,
    r: int,
)
    requires
        0 <= r < 16,
        cur.len() == 16,
        now.len() == 16,
        buckets_within(cur, model),
        buckets_within(model, cur),
        strictly_ascending(sorted),
        same_members(sorted, cur[r]),
        found == compacted_cells(sorted),
        forall|k: int, x: u64|
            0 <= k < 16 ==> (#[trigger] now[k].contains(x) <==> (k != r && cur[k].contains(x)) || (
            found.contains(x) && spec_resolution(x) == k)),
    ensures
        buckets_within(now, compact_level(model, r)),
        buckets_within(compact_level(model, r), now),
{
    assert(same_members(sorted, model[r])) by {
        assert forall|x: u64| sorted.contains(x) <==> model[r].contains(x) by {
            assert(cur[r].contains(x) ==> model[r].contains(x));
            assert(model[r].contains(x) ==> cur[r].contains(x));
        }
    }
    lemma_ascending_members(sorted, model[r]);
    let next = compact_level(model, r);
    assert forall|k: int, x: u64| 0 <= k < 16 implies (#[trigger] now[k].contains(x)
        <==> next[k].contains(x)) by {
        lemma_at_resolution_members(found, k, x);
        let part = at_resolution(found, k);
        if k != r {
            assert(next[k] == model[k] + part);
            assert(cur[k].contains(x) ==> model[k].contains(x));
            assert(model[k].contains(x) ==> cur[k].contains(x));
            if model[k].contains(x) {
                let i = choose|i: int| 0 <= i < model[k].len() && model[k][i] == x;
                assert(next[k][i] == x);
            }
            if part.contains(x) {
                let i = choose|i: int| 0 <= i < part.len() && part[i] == x;
                assert(next[k][model[k].len() + i] == x);
            }
            if next[k].contains(x) {
                let i = choose|i: int| 0 <= i < next[k].len() && next[k][i] == x;
                if i < model[k].len() {
                    assert(model[k][i] == x);
                } else {
                    assert(part[i - model[k].len()] == x);
                }
            }
        } else {
            assert(next[k] == part);
        }
    }
}

/// After `compact`, no cell of the coverage is an ancestor of another one.
pub proof fn lemma_compaction_ancestor_free(
    after: Seq<Seq<u64>>,
    before: Seq<Seq<u64>>,
    modified: Seq<bool>,
)
    requires
        before.len() == 16,
        is_compaction_of(after, before, modified),
    ensures
        ancestor_free(after),
{
    lemma_compact_down_len(before, finest_below(modified, 16));
    lemma_dedup_ancestor_free(after, compact_down(before, finest_below(modified, 16)));
}

/// Compacting a coverage that has just been compacted changes nothing:
/// where `second` is what `compact` makes of `first`, and `third` what it
/// makes of `second` with the marks cleared, `third` is `second`.
pub proof fn lemma_compact_idempotent(
    first: Seq<Seq<u64>>,
    modified: Seq<bool>,
    second: Seq<Seq<u64>>,
    cleared: Seq<bool>,
    third: Seq<Seq<u64>>,
)
    requires
        first.len() == 16,
        is_compaction_of(second, first, modified),
        forall|r: int| 0 <= r < 16 ==> !cleared[r],
        is_compaction_of(third, second, cleared),
    ensures
        third == second,
{
    lemma_compaction_ancestor_free(second, first, modified);
    lemma_finest_of_unmarked(cleared, 16);
    assert(compact_down(second, -1) == second);
    lemma_dedup_of_clean(third, second, true);
}

/// The buckets hold the same cells, bucket by bucket, however often and in
/// whatever order.
pub open spec fn same_cells(a: Seq<Seq<u64>>, b: Seq<Seq<u64>>) -> bool {
    buckets_within(a, b) && buckets_within(b, a)
}

/// The finest marked resolution is one of the first `n`, or -1.
pub proof fn lemma_finest_in_range(modified: Seq<bool>, n: int)
    requires
        0 <= n,
    ensures
        -1 <= finest_below(modified, n) < n,
    decreases n,
{
    if n > 0 {
        lemma_finest_in_range(modified, n - 1);
    }
}

/// What `dedup` makes of the buckets depends on the cells that each bucket
/// holds only: not on their order, nor on how often a cell stands.
pub proof fn lemma_dedup_order_free(a: Seq<Seq<u64>>, b: Seq<Seq<u64>>, parents: bool)
    requires
        a.len() == 16,
        same_cells(a, b),
    ensures
        spec_dedup(a, parents) == spec_dedup(b, parents),
{
    assert forall|r: int| 0 <= r < 16 implies #[trigger] spec_dedup(a, parents)[r] == spec_dedup(
        b,
        parents,
    )[r] by {
        let keep_a = |cell: u64| !(parents && buckets_hold_ancestor(a, cell));
        let keep_b = |cell: u64| !(parents && buckets_hold_ancestor(b, cell));
        let kept_a = kept_cells(a, r, parents);
        let kept_b = kept_cells(b, r, parents);
        assert forall|x: u64| kept_a.contains(x) <==> kept_b.contains(x) by {
            lemma_within_covers(a, b, x);
            lemma_within_covers(b, a, x);
            if kept_a.contains(x) {
                a[r].lemma_filter_contains_rev(keep_a, x);
                let i = choose|i: int| 0 <= i < kept_a.len() && kept_a[i] == x;
                a[r].lemma_filter_pred(keep_a, i);
                assert(b[r].contains(x));
                let j = choose|j: int| 0 <= j < b[r].len() && b[r][j] == x;
                b[r].lemma_filter_contains(keep_b, j);
            }
            if kept_b.contains(x) {
                b[r].lemma_filter_contains_rev(keep_b, x);
                let i = choose|i: int| 0 <= i < kept_b.len() && kept_b[i] == x;
                b[r].lemma_filter_pred(keep_b, i);
                assert(a[r].contains(x));
                let j = choose|j: int| 0 <= j < a[r].len() && a[r][j] == x;
                a[r].lemma_filter_contains(keep_a, j);
            }
        }
        lemma_ascending_same(kept_a, kept_b);
    }
    assert(spec_dedup(a, parents) =~= spec_dedup(b, parents));
}

/// One level of compaction makes buckets with the same cells of buckets
/// with the same cells.
pub proof fn lemma_level_order_free(a: Seq<Seq<u64>>, b: Seq<Seq<u64>>, r: int)
    requires
        a.len() == 16,
        same_cells(a, b),
        0 <= r < 16,
    ensures
        same_cells(compact_level(a, r), compact_level(b, r)),
{
    assert forall|x: u64| a[r].contains(x) <==> b[r].contains(x) by {}
    lemma_ascending_same(a[r], b[r]);
    let found = compacted_cells(ascending_members(a[r]));
    let next_a = compact_level(a, r);
    let next_b = compact_level(b, r);
    assert forall|k: int, x: u64| 0 <= k < 16 implies (#[trigger] next_a[k].contains(x)
        <==> next_b[k].contains(x)) by {
        let part = at_resolution(found, k);
        if k != r {
            assert(next_a[k] == a[k] + part);
            assert(next_b[k] == b[k] + part);
            if next_a[k].contains(x) {
                let i = choose|i: int| 0 <= i < next_a[k].len() && next_a[k][i] == x;
                if i < a[k].len() {
                    assert(a[k][i] == x);
                    assert(a[k].contains(x));
                    let j = choose|j: int| 0 <= j < b[k].len() && b[k][j] == x;
                    assert(next_b[k][j] == x);
                } else {
                    assert(part[i - a[k].len()] == x);
                    assert(next_b[k][b[k].len() + (i - a[k].len())] == x);
                }
            }
            if next_b[k].contains(x) {
                let i = choose|i: int| 0 <= i < next_b[k].len() && next_b[k][i] == x;
                if i < b[k].len() {
                    assert(b[k][i] == x);
                    assert(b[k].contains(x));
                    let j = choose|j: int| 0 <= j < a[k].len() && a[k][j] == x;
                    assert(next_a[k][j] == x);
                } else {
                    assert(part[i - b[k].len()] == x);
                    assert(next_a[k][a[k].len() + (i - b[k].len())] == x);
                }
            }
        }
    }
}

/// Compacting level after level makes buckets with the same cells of
/// buckets with the same cells.
pub proof fn lemma_compact_down_order_free(a: Seq<Seq<u64>>, b: Seq<Seq<u64>>, r: int)
    requires
        a.len() == 16,
        same_cells(a, b),
        r < 16,
    ensures
        same_cells(compact_down(a, r), compact_down(b, r)),
        compact_down(a, r).len() == 16,
    decreases r + 1,
{
    if r >= 0 {
        lemma_level_order_free(a, b, r);
        lemma_compact_down_order_free(compact_level(a, r), compact_level(b, r), r - 1);
    }
}

/// What `finalize` makes of the buckets depends on the cells that each
/// bucket holds only: cells may arrive in any order, and more than once.
pub proof fn lemma_finalize_order_free(
    a: Seq<Seq<u64>>,
    b: Seq<Seq<u64>>,
    modified: Seq<bool>,
    compact: bool,
)
    requires
        a.len() == 16,
        same_cells(a, b),
    ensures
        spec_finalize(a, modified, compact) == spec_finalize(b, modified, compact),
{
    if compact {
        lemma_finest_in_range(modified, 16);
        let top = finest_below(modified, 16);
        lemma_compact_down_order_free(a, b, top);
        lemma_dedup_order_free(compact_down(a, top), compact_down(b, top), true);
    } else {
        lemma_dedup_order_free(a, b, true);
    }
}

} // verus!
