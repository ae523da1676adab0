use vstd::prelude::*;

verus! {

/// No member is greater than one that follows it.
pub open spec fn ascending(cells: Seq<u64>) -> bool {
    forall|i: int, j: int| 0 <= i <= j < cells.len() ==> cells[i] <= cells[j]
}

/// Every member is less than each one that follows it.
pub open spec fn strictly_ascending(cells: Seq<u64>) -> bool {
    forall|i: int, j: int| 0 <= i < j < cells.len() ==> cells[i] < cells[j]
}

/// The two sequences hold the same values, however often and in whatever
/// order.
pub open spec fn same_members(a: Seq<u64>, b: Seq<u64>) -> bool {
    forall|x: u64| a.contains(x) <==> b.contains(x)
}

/// A strictly ascending sequence is fixed by the values it holds.
pub proof fn lemma_strictly_ascending_unique(a: Seq<u64>, b: Seq<u64>)
    requires
        strictly_ascending(a),
        strictly_ascending(b),
        same_members(a, b),
    ensures
        a == b,
    decreases a.len(),
{
    if a.len() == 0 {
        if b.len() > 0 {
            assert(b.contains(b[0]));
            assert(a.contains(b[0]));
        }
        assert(a =~= b);
    } else {
        let top = a.last();
        assert(a.contains(top));
        assert(b.contains(top));
        let at = choose|k: int| 0 <= k < b.len() && b[k] == top;
        assert(b.contains(b.last()));
        assert(a.contains(b.last()));
        let back = choose|k: int| 0 <= k < a.len() && a[k] == b.last();
        assert(b.last() == top) by {
            if back < a.len() - 1 {
                assert(a[back] < a[a.len() - 1]);
            }
            if at < b.len() - 1 {
                assert(b[at] < b[b.len() - 1]);
            }
        }
        let a0 = a.drop_last();
        let b0 = b.drop_last();
        assert forall|x: u64| a0.contains(x) <==> b0.contains(x) by {
            if a0.contains(x) {
                let k = choose|k: int| 0 <= k < a0.len() && a0[k] == x;
                assert(a[k] == x && a[k] < a[a.len() - 1]);
                assert(a.contains(x));
                let m = choose|m: int| 0 <= m < b.len() && b[m] == x;
                assert(m < b.len() - 1);
                assert(b0[m] == x);
            }
            if b0.contains(x) {
                let k = choose|k: int| 0 <= k < b0.len() && b0[k] == x;
                assert(b[k] == x && b[k] < b[b.len() - 1]);
                assert(b.contains(x));
                let m = choose|m: int| 0 <= m < a.len() && a[m] == x;
                assert(m < a.len() - 1);
                assert(a0[m] == x);
            }
        }
        lemma_strictly_ascending_unique(a0, b0);
        assert(a =~= a0.push(top));
        assert(b =~= b0.push(top));
    }
}

/// The strictly ascending sequence of the values that `cells` holds.
pub open spec fn ascending_members(cells: Seq<u64>) -> Seq<u64> {
    choose|sorted: Seq<u64>| strictly_ascending(sorted) && same_members(sorted, cells)
}

/// A strictly ascending sequence with the members of `cells` is the one.
pub proof fn lemma_ascending_members(sorted: Seq<u64>, cells: Seq<u64>)
    requires
        strictly_ascending(sorted),
        same_members(sorted, cells),
    ensures
        sorted == ascending_members(cells),
{
    let chosen = ascending_members(cells);
    assert(strictly_ascending(chosen) && same_members(chosen, cells));
    lemma_strictly_ascending_unique(sorted, chosen);
}

/// `value` put at its place in the strictly ascending sequence `sorted`,
/// unless it is there already.
pub open spec fn inserted(sorted: Seq<u64>, value: u64) -> Seq<u64>
    decreases sorted.len(),
{
    if sorted.len() == 0 {
        seq![value]
    } else if sorted.last() < value {
        sorted.push(value)
    } else if sorted.last() == value {
        sorted
    } else {
        inserted(sorted.drop_last(), value).push(sorted.last())
    }
}

/// The values of `cells` put in strictly ascending order, one after the
/// other.
pub open spec fn arranged(cells: Seq<u64>) -> Seq<u64>
    decreases cells.len(),
{
    if cells.len() == 0 {
        Seq::empty()
    } else {
        inserted(arranged(cells.drop_last()), cells.last())
    }
}

/// Putting a value at its place keeps the order and adds that value only.
pub proof fn lemma_inserted(sorted: Seq<u64>, value: u64)
    requires
        strictly_ascending(sorted),
    ensures
        strictly_ascending(inserted(sorted, value)),
        forall|x: u64|
            #![trigger inserted(sorted, value).contains(x)]
            inserted(sorted, value).contains(x) <==> sorted.contains(x) || x == value,
    decreases sorted.len(),
{
    let out = inserted(sorted, value);
    if sorted.len() == 0 {
        assert(out[0] == value);
        assert forall|x: u64| #![trigger out.contains(x)] out.contains(x) <==> sorted.contains(x) || x == value by {
            if out.contains(x) {
                let i = choose|i: int| 0 <= i < out.len() && out[i] == x;
            }
        }
    } else if sorted.last() < value {
        assert forall|i: int, j: int| 0 <= i < j < out.len() implies out[i] < out[j] by {
            if j == sorted.len() {
                if i < sorted.len() - 1 {
                    assert(sorted[i] < sorted[sorted.len() - 1]);
                }
            }
        }
        assert forall|x: u64| #![trigger out.contains(x)] out.contains(x) <==> sorted.contains(x) || x == value by {
            if out.contains(x) {
                let i = choose|i: int| 0 <= i < out.len() && out[i] == x;
                if i < sorted.len() {
                    assert(sorted[i] == x);
                }
            }
            if sorted.contains(x) {
                let i = choose|i: int| 0 <= i < sorted.len() && sorted[i] == x;
                assert(out[i] == x);
            }
            if x == value {
                assert(out[sorted.len() as int] == x);
            }
        }
    } else if sorted.last() == value {
        assert(sorted.contains(sorted[sorted.len() - 1]));
    } else {
        let front = sorted.drop_last();
        let top = sorted.last();
        assert(strictly_ascending(front));
        lemma_inserted(front, value);
        let inner = inserted(front, value);
        assert forall|i: int, j: int| 0 <= i < j < out.len() implies out[i] < out[j] by {
            if j == inner.len() {
                assert(inner.contains(inner[i]));
                if front.contains(inner[i]) {
                    let k = choose|k: int| 0 <= k < front.len() && front[k] == inner[i];
                    assert(sorted[k] < sorted[sorted.len() - 1]);
                }
            } else {
                assert(inner[i] < inner[j]);
            }
        }
        assert forall|x: u64| #![trigger out.contains(x)] out.contains(x) <==> sorted.contains(x) || x == value by {
            if out.contains(x) {
                let i = choose|i: int| 0 <= i < out.len() && out[i] == x;
                if i < inner.len() {
                    assert(inner.contains(inner[i]));
                    if front.contains(x) {
                        let k = choose|k: int| 0 <= k < front.len() && front[k] == x;
                        assert(sorted[k] == x);
                    }
                } else {
                    assert(sorted[sorted.len() - 1] == x);
                }
            }
            if sorted.contains(x) {
                let i = choose|i: int| 0 <= i < sorted.len() && sorted[i] == x;
                if i < front.len() {
                    assert(front[i] == x);
                    assert(front.contains(x));
                    assert(inner.contains(x));
                    let k = choose|k: int| 0 <= k < inner.len() && inner[k] == x;
                    assert(out[k] == x);
                } else {
                    assert(out[inner.len() as int] == x);
                }
            }
            if x == value {
                assert(inner.contains(x));
                let k = choose|k: int| 0 <= k < inner.len() && inner[k] == x;
                assert(out[k] == x);
            }
        }
    }
}

/// The arranged values are strictly ascending and are the values of the
/// sequence.
pub proof fn lemma_arranged(cells: Seq<u64>)
    ensures
        strictly_ascending(arranged(cells)),
        same_members(arranged(cells), cells),
    decreases cells.len(),
{
    if cells.len() > 0 {
        let front = cells.drop_last();
        lemma_arranged(front);
        lemma_inserted(arranged(front), cells.last());
        let out = arranged(cells);
        assert forall|x: u64| out.contains(x) <==> cells.contains(x) by {
            if cells.contains(x) {
                let i = choose|i: int| 0 <= i < cells.len() && cells[i] == x;
                if i < front.len() {
                    assert(front[i] == x);
                    assert(front.contains(x));
                }
            }
            if front.contains(x) {
                let i = choose|i: int| 0 <= i < front.len() && front[i] == x;
                assert(cells[i] == x);
            }
            if x == cells.last() {
                assert(cells[cells.len() - 1] == x);
            }
        }
    } else {
        assert forall|x: u64| arranged(cells).contains(x) <==> cells.contains(x) by {
            if arranged(cells).contains(x) {
                let i = choose|i: int| 0 <= i < arranged(cells).len() && arranged(cells)[i] == x;
            }
            if cells.contains(x) {
                let i = choose|i: int| 0 <= i < cells.len() && cells[i] == x;
            }
        }
    }
}

/// Every sequence has its strictly ascending sequence of members.
pub proof fn lemma_ascending_members_exist(cells: Seq<u64>)
    ensures
        strictly_ascending(ascending_members(cells)),
        same_members(ascending_members(cells), cells),
{
    lemma_arranged(cells);
}

/// Sequences with the same members have the same strictly ascending
/// sequence of members: it depends neither on the order of the members nor
/// on how often they stand.
pub proof fn lemma_ascending_same(a: Seq<u64>, b: Seq<u64>)
    requires
        same_members(a, b),
    ensures
        ascending_members(a) == ascending_members(b),
{
    lemma_ascending_members_exist(a);
    lemma_ascending_members_exist(b);
    lemma_strictly_ascending_unique(ascending_members(a), ascending_members(b));
}

/// `Vec::sort` of the standard library: the same values as before, each as
/// often as before, in ascending order.
#[verifier::external_body]
pub(crate) fn sort_cells(cells: &mut Vec<u64>)
    ensures
        ascending(final(cells)@),
        final(cells)@.to_multiset() == old(cells)@.to_multiset(),
{
    cells.sort();
}

/// `Vec::shrink_to_fit` of the standard library: spare capacity is given
/// back, the contents stay.
#[verifier::external_body]
pub(crate) fn release_spare(cells: &mut Vec<u64>)
    ensures
        final(cells)@ == old(cells)@,
{
    cells.shrink_to_fit();
}

/// `x` is one of the first `upto` members of `cells`.
pub open spec fn among_first(cells: Seq<u64>, upto: int, x: u64) -> bool {
    exists|j: int| 0 <= j < upto && j < cells.len() && cells[j] == x
}

/// Drops every member of an ascending vector that repeats the one before it.
pub fn drop_repeats(cells: &mut Vec<u64>)
    requires
        ascending(old(cells)@),
    ensures
        strictly_ascending(final(cells)@),
        same_members(final(cells)@, old(cells)@),
{
    let n = cells.len();
    if n == 0 {
        return ;
    }
    let mut kept: usize = 1;
    let mut i: usize = 1;
    proof {
        assert(among_first(old(cells)@, 1, cells@[0]));
        assert(among_first(cells@, 1, old(cells)@[0]));
    }
    while i < n
        invariant
            1 <= kept <= i <= n,
            cells@.len() == n,
            old(cells)@.len() == n,
            ascending(old(cells)@),
            forall|k: int| i <= k < n ==> cells@[k] == old(cells)@[k],
            cells@[kept - 1] == old(cells)@[i - 1],
            forall|a: int, b: int| 0 <= a < b < kept ==> cells@[a] < cells@[b],
            forall|k: int| 0 <= k < kept ==> among_first(old(cells)@, i as int, #[trigger] cells@[k]),
            forall|k: int| 0 <= k < i ==> among_first(cells@, kept as int, #[trigger] old(cells)@[k]),
        decreases n - i,
    {
        let x = cells[i];
        let ghost before = cells@;
        let ghost kept_before = kept as int;
        if x != cells[kept - 1] {
            cells[kept] = x;
            kept = kept + 1;
        }
        proof {
            let now = cells@;
            let orig = old(cells)@;
            assert(forall|k: int| 0 <= k < kept_before ==> now[k] == before[k]);
            assert(now[kept - 1] == x);
            assert forall|k: int| 0 <= k < kept implies among_first(orig, i + 1, #[trigger] now[k]) by {
                if k < kept_before {
                    assert(among_first(orig, i as int, before[k]));
                    let j = choose|j: int| 0 <= j < i && j < orig.len() && orig[j] == before[k];
                    assert(orig[j] == now[k]);
                } else {
                    assert(orig[i as int] == now[k]);
                }
            }
            assert forall|k: int| 0 <= k < i + 1 implies among_first(
                now,
                kept as int,
                #[trigger] orig[k],
            ) by {
                if k < i {
                    assert(among_first(before, kept_before, orig[k]));
                    let j = choose|j: int|
                        0 <= j < kept_before && j < before.len() && before[j] == orig[k];
                    assert(now[j] == orig[k]);
                } else {
                    assert(now[kept - 1] == orig[k]);
                }
            }
            assert forall|a: int, b: int| 0 <= a < b < kept implies now[a] < now[b] by {
                if b == kept_before {
                    assert(orig[i - 1] <= orig[i as int]);
                    assert(before[kept_before - 1] < x);
                    if a < kept_before - 1 {
                        assert(before[a] < before[kept_before - 1]);
                    }
                }
            }
        }
        i = i + 1;
    }
    let ghost full = cells@;
    cells.truncate(kept);
    proof {
        let now = cells@;
        let orig = old(cells)@;
        assert(forall|k: int| 0 <= k < kept ==> now[k] == full[k]);
        assert forall|x: u64| now.contains(x) <==> orig.contains(x) by {
            if now.contains(x) {
                let k = choose|k: int| 0 <= k < now.len() && now[k] == x;
                assert(among_first(orig, n as int, full[k]));
            }
            if orig.contains(x) {
                let k = choose|k: int| 0 <= k < orig.len() && orig[k] == x;
                assert(among_first(full, kept as int, orig[k]));
                let j = choose|j: int| 0 <= j < kept && j < full.len() && full[j] == orig[k];
                assert(now[j] == x);
            }
        }
    }
}

/// Sorts the vector and drops repetitions: what comes out is the strictly
/// ascending sequence of the values that went in. With `shrink`, spare
/// capacity is given back too.
pub fn sort_unique(cells: &mut Vec<u64>, shrink: bool)
    ensures
        strictly_ascending(final(cells)@),
        same_members(final(cells)@, old(cells)@),
{
    sort_cells(cells);
    proof {
        cells@.to_multiset_ensures();
        old(cells)@.to_multiset_ensures();
        assert forall|x: u64| cells@.contains(x) <==> old(cells)@.contains(x) by {
            assert(cells@.contains(x) <==> cells@.to_multiset().count(x) > 0);
            assert(old(cells)@.contains(x) <==> old(cells)@.to_multiset().count(x) > 0);
        }
    }
    drop_repeats(cells);
    if shrink {
        release_spare(cells);
    }
}

} // verus!
