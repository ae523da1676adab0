use crate::axis::AxisOrder;
use crate::raster::Raster;
use vstd::prelude::*;

verus! {

/// A rectangle of pixels in array coordinates.
#[derive(Clone, Copy, Debug, PartialEq, Eq, Structural)]
pub struct PixelRect {
    pub min_x: usize,
    pub min_y: usize,
    pub max_x: usize,
    pub max_y: usize,
}

impl View for PixelRect {
    type V = (int, int, int, int);

    /// The rectangle as `(min_x, min_y, max_x, max_y)`.
    open spec fn view(&self) -> (int, int, int, int)
{
        (self.min_x as int, self.min_y as int, self.max_x as int, self.max_y as int)
    }
}

/// The rectangles of `rects`, each as `(min_x, min_y, max_x, max_y)`.
pub open spec fn rects_view(rects: Seq<PixelRect>) -> Seq<(int, int, int, int)> {
    rects.map_values(|rect: PixelRect| rect@)
}

/// The runs of `runs`, each as `(first, last)`.
pub open spec fn runs_view(runs: Seq<(usize, usize)>) -> Seq<(int, int)> {
    runs.map_values(|run: (usize, usize)| (run.0 as int, run.1 as int))
}

/// The pixel `(x, y)` lies in the rectangle `rect`, bounds included.
pub open spec fn rect_holds(rect: (int, int, int, int), x: int, y: int) -> bool {
    rect.0 <= x <= rect.2 && rect.1 <= y <= rect.3
}

/// Which pixels of the raster hold a value other than `nodata`.
pub open spec fn data_of(raster: Raster, order: AxisOrder, nodata: u64) -> spec_fn(int, int) -> bool {
    |x: int, y: int| raster.spec_value(order, x, y) != nodata
}

/// The pixel at place `j` of lane `i` holds data. Along x a lane is a
/// column of pixels with `x == i`, along y a row with `y == i`.
pub open spec fn lane_data(data: spec_fn(int, int) -> bool, along_x: bool, i: int, j: int) -> bool {
    if along_x {
        data(i, j)
    } else {
        data(j, i)
    }
}

/// Lane `i` holds data between `lo` and `hi` of the other axis, `hi` not
/// included.
pub open spec fn lane_occupied(
    data: spec_fn(int, int) -> bool,
    along_x: bool,
    i: int,
    lo: int,
    hi: int,
) -> bool {
    exists|j: int| lo <= j < hi && #[trigger] lane_data(data, along_x, i, j)
}

/// The maximal runs of occupied lanes among the lanes `from`, ... `n - 1`,
/// in ascending order, each as the pair of its first and its last lane.
pub open spec fn runs_upto(
    data: spec_fn(int, int) -> bool,
    along_x: bool,
    lo: int,
    hi: int,
    from: int,
    n: int,
) -> Seq<(int, int)>
    decreases n - from,
{
    if n <= from {
        Seq::empty()
    } else {
        let before = runs_upto(data, along_x, lo, hi, from, n - 1);
        if !lane_occupied(data, along_x, n - 1, lo, hi) {
            before
        } else if n - 1 > from && lane_occupied(data, along_x, n - 2, lo, hi) {
            before.drop_last().push((before.last().0, n - 1))
        } else {
            before.push((n - 1, n - 1))
        }
    }
}

/// One rectangle for each run of `refined`, spanning the run along x and
/// the rows `c` to `d` along y.
pub open spec fn boxes_of_refined(refined: Seq<(int, int)>, c: int, d: int) -> Seq<
    (int, int, int, int),
> {
    Seq::new(refined.len(), |m: int| (refined[m].0, c, refined[m].1, d))
}

/// The rectangles of the first `upto` runs of rows within the columns `a`
/// to `b`: for each run of rows, the runs of columns that hold data in
/// these rows.
pub open spec fn boxes_of_rows(
    data: spec_fn(int, int) -> bool,
    a: int,
    b: int,
    row_runs: Seq<(int, int)>,
    upto: int,
) -> Seq<(int, int, int, int)>
    decreases upto,
{
    if upto <= 0 {
        Seq::empty()
    } else {
        let (c, d) = row_runs[upto - 1];
        boxes_of_rows(data, a, b, row_runs, upto - 1) + boxes_of_refined(
            runs_upto(data, true, c, d + 1, a, b + 1),
            c,
            d,
        )
    }
}

/// The rectangles of the first `upto` runs of columns: for each run of
/// columns, the runs of rows that hold data in these columns, and for each
/// of those the rectangles of `boxes_of_rows`.
pub open spec fn boxes_of_strips(
    data: spec_fn(int, int) -> bool,
    y_size: int,
    column_runs: Seq<(int, int)>,
    upto: int,
) -> Seq<(int, int, int, int)>
    decreases upto,
{
    if upto <= 0 {
        Seq::empty()
    } else {
        let (a, b) = column_runs[upto - 1];
        let row_runs = runs_upto(data, false, a, b + 1, 0, y_size);
        boxes_of_strips(data, y_size, column_runs, upto - 1) + boxes_of_rows(
            data,
            a,
            b,
            row_runs,
            row_runs.len() as int,
        )
    }
}

/// The rectangles that hold the data of the columns `x_from` up to, not
/// including, `x_to`, over all `y_size` rows.
pub open spec fn boxes_in(
    data: spec_fn(int, int) -> bool,
    x_from: int,
    x_to: int,
    y_size: int,
) -> Seq<(int, int, int, int)> {
    let column_runs = runs_upto(data, true, 0, y_size, x_from, x_to);
    boxes_of_strips(data, y_size, column_runs, column_runs.len() as int)
}

/// Runs lie within the lanes they were taken from, and none is empty.
pub proof fn lemma_runs_bounds(
    data: spec_fn(int, int) -> bool,
    along_x: bool,
    lo: int,
    hi: int,
    from: int,
    n: int,
)
    ensures
        forall|k: int|
            0 <= k < runs_upto(data, along_x, lo, hi, from, n).len() ==> {
                let run = #[trigger] runs_upto(data, along_x, lo, hi, from, n)[k];
                from <= run.0 <= run.1 < n
            },
        runs_upto(data, along_x, lo, hi, from, n).len() > 0 && from < n && lane_occupied(
            data,
            along_x,
            n - 1,
            lo,
            hi,
        ) ==> runs_upto(data, along_x, lo, hi, from, n).last().1 == n - 1,
        from < n && lane_occupied(data, along_x, n - 1, lo, hi) ==> runs_upto(
            data,
            along_x,
            lo,
            hi,
            from,
            n,
        ).len() > 0,
        runs_upto(data, along_x, lo, hi, from, n).len() <= if n > from {
            n - from
        } else {
            0
        },
    decreases n - from,
{
    if n > from {
        lemma_runs_bounds(data, along_x, lo, hi, from, n - 1);
    }
}

/// Every occupied lane lies in one of the runs.
pub proof fn lemma_runs_cover(
    data: spec_fn(int, int) -> bool,
    along_x: bool,
    lo: int,
    hi: int,
    from: int,
    n: int,
    i: int,
)
    requires
        from <= i < n,
        lane_occupied(data, along_x, i, lo, hi),
    ensures
        exists|k: int|
            0 <= k < runs_upto(data, along_x, lo, hi, from, n).len() && (#[trigger] runs_upto(
                data,
                along_x,
                lo,
                hi,
                from,
                n,
            )[k]).0 <= i <= runs_upto(data, along_x, lo, hi, from, n)[k].1,
    decreases n - from,
{
    let runs = runs_upto(data, along_x, lo, hi, from, n);
    let before = runs_upto(data, along_x, lo, hi, from, n - 1);
    lemma_runs_bounds(data, along_x, lo, hi, from, n - 1);
    lemma_runs_bounds(data, along_x, lo, hi, from, n);
    if i == n - 1 {
        let k = runs.len() - 1;
        assert(runs[k].0 <= i <= runs[k].1);
    } else {
        lemma_runs_cover(data, along_x, lo, hi, from, n - 1, i);
        let k = choose|k: int| 0 <= k < before.len() && (#[trigger] before[k]).0 <= i <= before[k].1;
        if !lane_occupied(data, along_x, n - 1, lo, hi) {
            assert(runs[k] == before[k]);
        } else if n - 1 > from && lane_occupied(data, along_x, n - 2, lo, hi) {
            if k < before.len() - 1 {
                assert(runs[k] == before[k]);
            } else {
                assert(runs[k].0 == before[k].0);
                assert(runs[k].0 <= i <= runs[k].1);
            }
        } else {
            assert(runs[k] == before[k]);
        }
    }
}

/// A rectangle of one run of rows is a rectangle of the runs of rows.
proof fn lemma_rows_contain(
    data: spec_fn(int, int) -> bool,
    a: int,
    b: int,
    row_runs: Seq<(int, int)>,
    upto: int,
    l: int,
    found: (int, int, int, int),
)
    requires
        0 <= l < upto,
        boxes_of_refined(
            runs_upto(data, true, row_runs[l].0, row_runs[l].1 + 1, a, b + 1),
            row_runs[l].0,
            row_runs[l].1,
        ).contains(found),
    ensures
        boxes_of_rows(data, a, b, row_runs, upto).contains(found),
    decreases upto,
{
    let (c, d) = row_runs[upto - 1];
    let head = boxes_of_rows(data, a, b, row_runs, upto - 1);
    let tail = boxes_of_refined(runs_upto(data, true, c, d + 1, a, b + 1), c, d);
    if l == upto - 1 {
        let m = choose|m: int| 0 <= m < tail.len() && tail[m] == found;
        assert((head + tail)[head.len() + m] == found);
    } else {
        lemma_rows_contain(data, a, b, row_runs, upto - 1, l, found);
        let m = choose|m: int| 0 <= m < head.len() && head[m] == found;
        assert((head + tail)[m] == found);
    }
}

/// A rectangle of one run of columns is a rectangle of the runs of columns.
proof fn lemma_strips_contain(
    data: spec_fn(int, int) -> bool,
    y_size: int,
    column_runs: Seq<(int, int)>,
    upto: int,
    k: int,
    found: (int, int, int, int),
)
    requires
        0 <= k < upto,
        ({
            let row_runs = runs_upto(data, false, column_runs[k].0, column_runs[k].1 + 1, 0, y_size);
            boxes_of_rows(
                data,
                column_runs[k].0,
                column_runs[k].1,
                row_runs,
                row_runs.len() as int,
            ).contains(found)
        }),
    ensures
        boxes_of_strips(data, y_size, column_runs, upto).contains(found),
    decreases upto,
{
    let (a, b) = column_runs[upto - 1];
    let row_runs = runs_upto(data, false, a, b + 1, 0, y_size);
    let head = boxes_of_strips(data, y_size, column_runs, upto - 1);
    let tail = boxes_of_rows(data, a, b, row_runs, row_runs.len() as int);
    if k == upto - 1 {
        let m = choose|m: int| 0 <= m < tail.len() && tail[m] == found;
        assert((head + tail)[head.len() + m] == found);
    } else {
        lemma_strips_contain(data, y_size, column_runs, upto - 1, k, found);
        let m = choose|m: int| 0 <= m < head.len() && head[m] == found;
        assert((head + tail)[m] == found);
    }
}

/// Every pixel that holds data lies in one of the rectangles found for the
/// columns it is among.
pub proof fn lemma_boxes_cover(
    data: spec_fn(int, int) -> bool,
    x_from: int,
    x_to: int,
    y_size: int,
    x: int,
    y: int,
)
    requires
        x_from <= x < x_to,
        0 <= y < y_size,
        data(x, y),
    ensures
        exists|m: int|
            0 <= m < boxes_in(data, x_from, x_to, y_size).len() && rect_holds(
                #[trigger] boxes_in(data, x_from, x_to, y_size)[m],
                x,
                y,
            ),
{
    let column_runs = runs_upto(data, true, 0, y_size, x_from, x_to);
    assert(lane_data(data, true, x, y));
    lemma_runs_cover(data, true, 0, y_size, x_from, x_to, x);
    let k = choose|k: int|
        0 <= k < column_runs.len() && (#[trigger] column_runs[k]).0 <= x <= column_runs[k].1;
    let (a, b) = column_runs[k];
    let row_runs = runs_upto(data, false, a, b + 1, 0, y_size);
    assert(lane_data(data, false, y, x));
    lemma_runs_cover(data, false, a, b + 1, 0, y_size, y);
    let l = choose|l: int| 0 <= l < row_runs.len() && (#[trigger] row_runs[l]).0 <= y <= row_runs[l].1;
    let (c, d) = row_runs[l];
    let refined = runs_upto(data, true, c, d + 1, a, b + 1);
    lemma_runs_cover(data, true, c, d + 1, a, b + 1, x);
    let m = choose|m: int| 0 <= m < refined.len() && (#[trigger] refined[m]).0 <= x <= refined[m].1;
    let found = (refined[m].0, c, refined[m].1, d);
    assert(boxes_of_refined(refined, c, d)[m] == found);
    lemma_rows_contain(data, a, b, row_runs, row_runs.len() as int, l, found);
    lemma_strips_contain(data, y_size, column_runs, column_runs.len() as int, k, found);
    let all = boxes_in(data, x_from, x_to, y_size);
    let at = choose|at: int| 0 <= at < all.len() && all[at] == found;
    assert(rect_holds(all[at], x, y));
}

/// The rectangle lies within the columns `x_from` up to `x_to` and the rows
/// below `y_size`, and its lower bounds do not exceed its upper bounds.
pub open spec fn rect_within(rect: (int, int, int, int), x_from: int, x_to: int, y_size: int) -> bool {
    x_from <= rect.0 <= rect.2 < x_to && 0 <= rect.1 <= rect.3 < y_size
}

/// The rectangles of the runs of rows of one strip lie within the strip.
proof fn lemma_rows_within(
    data: spec_fn(int, int) -> bool,
    a: int,
    b: int,
    y_size: int,
    row_runs: Seq<(int, int)>,
    upto: int,
)
    requires
        0 <= upto <= row_runs.len(),
        forall|l: int| 0 <= l < row_runs.len() ==> 0 <= (#[trigger] row_runs[l]).0 <= row_runs[l].1 < y_size,
    ensures
        forall|m: int|
            0 <= m < boxes_of_rows(data, a, b, row_runs, upto).len() ==> rect_within(
                #[trigger] boxes_of_rows(data, a, b, row_runs, upto)[m],
                a,
                b + 1,
                y_size,
            ),
    decreases upto,
{
    if upto > 0 {
        lemma_rows_within(data, a, b, y_size, row_runs, upto - 1);
        let (c, d) = row_runs[upto - 1];
        let refined = runs_upto(data, true, c, d + 1, a, b + 1);
        lemma_runs_bounds(data, true, c, d + 1, a, b + 1);
        let head = boxes_of_rows(data, a, b, row_runs, upto - 1);
        let tail = boxes_of_refined(refined, c, d);
        let all = boxes_of_rows(data, a, b, row_runs, upto);
        assert(all == head + tail);
        assert forall|m: int| 0 <= m < all.len() implies rect_within(
            #[trigger] all[m],
            a,
            b + 1,
            y_size,
        ) by {
            if m < head.len() {
                assert(all[m] == head[m]);
            } else {
                let at = m - head.len();
                assert(all[m] == tail[at]);
                assert(a <= refined[at].0 <= refined[at].1 < b + 1);
                assert(0 <= row_runs[upto - 1].0);
            }
        }
    }
}

/// The rectangles of the runs of columns lie within the columns searched.
proof fn lemma_strips_within(
    data: spec_fn(int, int) -> bool,
    x_from: int,
    x_to: int,
    y_size: int,
    column_runs: Seq<(int, int)>,
    upto: int,
)
    requires
        0 <= upto <= column_runs.len(),
        forall|k: int|
            0 <= k < column_runs.len() ==> x_from <= (#[trigger] column_runs[k]).0
                <= column_runs[k].1 < x_to,
    ensures
        forall|m: int|
            0 <= m < boxes_of_strips(data, y_size, column_runs, upto).len() ==> rect_within(
                #[trigger] boxes_of_strips(data, y_size, column_runs, upto)[m],
                x_from,
                x_to,
                y_size,
            ),
    decreases upto,
{
    if upto > 0 {
        lemma_strips_within(data, x_from, x_to, y_size, column_runs, upto - 1);
        let (a, b) = column_runs[upto - 1];
        let row_runs = runs_upto(data, false, a, b + 1, 0, y_size);
        lemma_runs_bounds(data, false, a, b + 1, 0, y_size);
        lemma_rows_within(data, a, b, y_size, row_runs, row_runs.len() as int);
        let head = boxes_of_strips(data, y_size, column_runs, upto - 1);
        let tail = boxes_of_rows(data, a, b, row_runs, row_runs.len() as int);
        let all = boxes_of_strips(data, y_size, column_runs, upto);
        assert(all == head + tail);
        assert(x_from <= column_runs[upto - 1].0 <= column_runs[upto - 1].1 < x_to);
        assert forall|m: int| 0 <= m < all.len() implies rect_within(
            #[trigger] all[m],
            x_from,
            x_to,
            y_size,
        ) by {
            if m < head.len() {
                assert(all[m] == head[m]);
            } else {
                assert(all[m] == tail[m - head.len()]);
            }
        }
    }
}

/// Every rectangle found lies within the columns searched and within the
/// rows of the raster.
pub proof fn lemma_boxes_within(data: spec_fn(int, int) -> bool, x_from: int, x_to: int, y_size: int)
    ensures
        forall|m: int|
            0 <= m < boxes_in(data, x_from, x_to, y_size).len() ==> rect_within(
                #[trigger] boxes_in(data, x_from, x_to, y_size)[m],
                x_from,
                x_to,
                y_size,
            ),
{
    let column_runs = runs_upto(data, true, 0, y_size, x_from, x_to);
    lemma_runs_bounds(data, true, 0, y_size, x_from, x_to);
    lemma_strips_within(data, x_from, x_to, y_size, column_runs, column_runs.len() as int);
}

/// Whether lane `i` holds a value other than `nodata` between `lo` and
/// `hi`.
fn lane_has_data(
    raster: &Raster,
    order: AxisOrder,
    nodata: u64,
    along_x: bool,
    i: usize,
    lo: usize,
    hi: usize,
) -> (occupied: bool)
    requires
        along_x ==> i < raster.spec_x_size(order) && hi <= raster.spec_y_size(order),
        !along_x ==> i < raster.spec_y_size(order) && hi <= raster.spec_x_size(order),
    ensures
        occupied == lane_occupied(data_of(*raster, order, nodata), along_x, i as int, lo as int, hi as int),
{
    let ghost data = data_of(*raster, order, nodata);
    let mut j: usize = lo;
    while j < hi
        invariant
            lo <= j,
            data == data_of(*raster, order, nodata),
            along_x ==> i < raster.spec_x_size(order) && hi <= raster.spec_y_size(order),
            !along_x ==> i < raster.spec_y_size(order) && hi <= raster.spec_x_size(order),
            forall|m: int| lo <= m < j ==> !#[trigger] lane_data(data, along_x, i as int, m),
        decreases hi - j,
    {
        let value = if along_x {
            raster.value_at(order, i, j)
        } else {
            raster.value_at(order, j, i)
        };
        match value {
            Some(found) => {
                if found != nodata {
                    assert(lane_data(data, along_x, i as int, j as int));
                    return true;
                }
            },
            None => {},
        }
        j = j + 1;
    }
    false
}

/// The runs of lanes that hold data, among the lanes `from` up to, not
/// including, `to`: consecutive occupied lanes are one run, given by its
/// first and last lane. A lane is occupied where one of its pixels between
/// `lo` and `hi` differs from `nodata`.
pub fn find_continuous_chunks_along_axis(
    raster: &Raster,
    order: AxisOrder,
    nodata: u64,
    along_x: bool,
    lo: usize,
    hi: usize,
    from: usize,
    to: usize,
) -> (chunks: Vec<(usize, usize)>)
    requires
        along_x ==> to <= raster.spec_x_size(order) && hi <= raster.spec_y_size(order),
        !along_x ==> to <= raster.spec_y_size(order) && hi <= raster.spec_x_size(order),
    ensures
        runs_view(chunks@) == runs_upto(
            data_of(*raster, order, nodata),
            along_x,
            lo as int,
            hi as int,
            from as int,
            to as int,
        ),
{
    let ghost data = data_of(*raster, order, nodata);
    let mut chunks: Vec<(usize, usize)> = Vec::new();
    let mut current: Option<usize> = None;
    let mut i: usize = from;
    assert(runs_view(chunks@) =~= Seq::<(int, int)>::empty());
    if to <= from {
        return chunks;
    }
    while i < to
        invariant
            from <= i <= to,
            data == data_of(*raster, order, nodata),
            along_x ==> to <= raster.spec_x_size(order) && hi <= raster.spec_y_size(order),
            !along_x ==> to <= raster.spec_y_size(order) && hi <= raster.spec_x_size(order),
            current is Some ==> from <= current->Some_0 < i && lane_occupied(
                data,
                along_x,
                i - 1,
                lo as int,
                hi as int,
            ) && runs_upto(data, along_x, lo as int, hi as int, from as int, i as int) == runs_view(
                chunks@,
            ).push((current->Some_0 as int, i - 1)),
            current is None ==> runs_upto(data, along_x, lo as int, hi as int, from as int, i as int)
                == runs_view(chunks@) && (i > from ==> !lane_occupied(
                data,
                along_x,
                i - 1,
                lo as int,
                hi as int,
            )),
        decreases to - i,
    {
        let ghost before = runs_upto(data, along_x, lo as int, hi as int, from as int, i as int);
        let ghost listed = runs_view(chunks@);
        if lane_has_data(raster, order, nodata, along_x, i, lo, hi) {
            match current {
                None => {
                    current = Some(i);
                },
                Some(begin) => {
                    assert(before.drop_last() =~= listed);
                },
            }
        } else {
            match current {
                Some(begin) => {
                    chunks.push((begin, i - 1));
                    assert(runs_view(chunks@) =~= listed.push((begin as int, i - 1)));
                    current = None;
                },
                None => {},
            }
        }
        i = i + 1;
    }
    match current {
        Some(begin) => {
            let ghost listed = runs_view(chunks@);
            chunks.push((begin, to - 1));
            assert(runs_view(chunks@) =~= listed.push((begin as int, to - 1)));
        },
        None => {},
    }
    chunks
}

/// The rectangles that hold the data of the columns `x_from` up to, not
/// including, `x_to`.
///
/// Columns that hold data and follow one another form a strip. Within a
/// strip, rows that hold data and follow one another form a band. Within a
/// band, the columns that hold data in its rows are run through once more,
/// and every run of them gives one rectangle, bounds included. Clusters
/// that share rows or columns may so end up in one rectangle: the aim is to
/// leave out large empty regions, not to find the smallest cover.
pub fn find_boxes_between(
    raster: &Raster,
    nodata: u64,
    order: AxisOrder,
    x_from: usize,
    x_to: usize,
) -> (boxes: Vec<PixelRect>)
    requires
        x_to <= raster.spec_x_size(order),
    ensures
        rects_view(boxes@) == boxes_in(
            data_of(*raster, order, nodata),
            x_from as int,
            x_to as int,
            raster.spec_y_size(order) as int,
        ),
        forall|x: int, y: int|
            x_from <= x < x_to && 0 <= y < raster.spec_y_size(order) && raster.spec_value(
                order,
                x,
                y,
            ) != nodata ==> exists|m: int|
                0 <= m < boxes@.len() && rect_holds(#[trigger] boxes@[m]@, x, y),
        forall|m: int|
            0 <= m < boxes@.len() ==> rect_within(
                #[trigger] boxes@[m]@,
                x_from as int,
                x_to as int,
                raster.spec_y_size(order) as int,
            ),
{
    let ghost data = data_of(*raster, order, nodata);
    let extent = raster.extent(order);
    let y_size = extent.1;
    let column_runs = find_continuous_chunks_along_axis(
        raster,
        order,
        nodata,
        true,
        0,
        y_size,
        x_from,
        x_to,
    );
    let ghost columns = runs_view(column_runs@);
    let mut boxes: Vec<PixelRect> = Vec::new();
    assert(rects_view(boxes@) =~= Seq::<(int, int, int, int)>::empty());
    let mut k: usize = 0;
    while k < column_runs.len()
        invariant
            k <= column_runs.len(),
            data == data_of(*raster, order, nodata),
            columns == runs_view(column_runs@),
            columns == runs_upto(data, true, 0, y_size as int, x_from as int, x_to as int),
            x_to <= raster.spec_x_size(order),
            y_size == raster.spec_y_size(order),
            raster.spec_x_size(order) <= isize::MAX,
            y_size <= isize::MAX,
            rects_view(boxes@) == boxes_of_strips(data, y_size as int, columns, k as int),
        decreases column_runs.len() - k,
    {
        let (a, b) = column_runs[k];
        proof {
            lemma_runs_bounds(data, true, 0, y_size as int, x_from as int, x_to as int);
            assert(columns[k as int] == (a as int, b as int));
        }
        let row_runs = find_continuous_chunks_along_axis(
            raster,
            order,
            nodata,
            false,
            a,
            b + 1,
            0,
            y_size,
        );
        let ghost rows = runs_view(row_runs@);
        let ghost strips = rects_view(boxes@);
        let mut l: usize = 0;
        assert(rects_view(boxes@) =~= strips + boxes_of_rows(data, a as int, b as int, rows, 0));
        while l < row_runs.len()
            invariant
                l <= row_runs.len(),
                data == data_of(*raster, order, nodata),
                rows == runs_view(row_runs@),
                rows == runs_upto(data, false, a as int, b + 1, 0, y_size as int),
                a <= b < raster.spec_x_size(order),
                y_size == raster.spec_y_size(order),
                raster.spec_x_size(order) <= isize::MAX,
                y_size <= isize::MAX,
                rects_view(boxes@) == strips + boxes_of_rows(data, a as int, b as int, rows, l as int),
            decreases row_runs.len() - l,
        {
            let (c, d) = row_runs[l];
            proof {
                lemma_runs_bounds(data, false, a as int, b + 1, 0, y_size as int);
                assert(rows[l as int] == (c as int, d as int));
            }
            let refined = find_continuous_chunks_along_axis(
                raster,
                order,
                nodata,
                true,
                c,
                d + 1,
                a,
                b + 1,
            );
            let ghost fine = runs_view(refined@);
            let ghost bands = rects_view(boxes@);
            let ghost whole = boxes_of_refined(fine, c as int, d as int);
            let mut m: usize = 0;
            assert(rects_view(boxes@) =~= bands + whole.subrange(0, 0));
            while m < refined.len()
                invariant
                    m <= refined.len(),
                    fine == runs_view(refined@),
                    whole == boxes_of_refined(fine, c as int, d as int),
                    rects_view(boxes@) == bands + whole.subrange(0, m as int),
                decreases refined.len() - m,
            {
                let (e, f) = refined[m];
                let ghost listed = rects_view(boxes@);
                boxes.push(PixelRect { min_x: e, min_y: c, max_x: f, max_y: d });
                proof {
                    assert(fine[m as int] == (e as int, f as int));
                    assert(rects_view(boxes@) =~= listed.push((e as int, c as int, f as int, d as int)));
                    assert(whole.subrange(0, m + 1) =~= whole.subrange(0, m as int).push(
                        whole[m as int],
                    ));
                    assert(rects_view(boxes@) =~= bands + whole.subrange(0, m + 1));
                }
                m = m + 1;
            }
            proof {
                assert(whole.subrange(0, m as int) =~= whole);
                assert(rects_view(boxes@) =~= strips + boxes_of_rows(
                    data,
                    a as int,
                    b as int,
                    rows,
                    l + 1,
                ));
            }
            l = l + 1;
        }
        k = k + 1;
    }
    proof {
        assert forall|x: int, y: int|
            x_from <= x < x_to && 0 <= y < raster.spec_y_size(order) && raster.spec_value(
                order,
                x,
                y,
            ) != nodata implies exists|m: int|
            0 <= m < boxes@.len() && rect_holds(#[trigger] boxes@[m]@, x, y) by {
            assert(data(x, y));
            lemma_boxes_cover(data, x_from as int, x_to as int, y_size as int, x, y);
            let all = boxes_in(data, x_from as int, x_to as int, y_size as int);
            let m = choose|m: int| 0 <= m < all.len() && rect_holds(#[trigger] all[m], x, y);
            assert(rects_view(boxes@)[m] == boxes@[m]@);
        }
        lemma_boxes_within(data, x_from as int, x_to as int, y_size as int);
        assert forall|m: int| 0 <= m < boxes@.len() implies rect_within(
            #[trigger] boxes@[m]@,
            x_from as int,
            x_to as int,
            y_size as int,
        ) by {
            assert(rects_view(boxes@)[m] == boxes@[m]@);
        }
    }
    boxes
}

/// The rectangles that hold the data of the raster: every pixel whose
/// value differs from `nodata` lies in one of them. See
/// `find_boxes_between` for how they are cut.
pub fn find_boxes_containing_data(raster: &Raster, nodata: u64, order: AxisOrder) -> (boxes: Vec<PixelRect>)
    ensures
        rects_view(boxes@) == boxes_in(
            data_of(*raster, order, nodata),
            0,
            raster.spec_x_size(order) as int,
            raster.spec_y_size(order) as int,
        ),
        forall|x: int, y: int|
            0 <= x < raster.spec_x_size(order) && 0 <= y < raster.spec_y_size(order)
                && raster.spec_value(order, x, y) != nodata ==> exists|m: int|
                0 <= m < boxes@.len() && rect_holds(#[trigger] boxes@[m]@, x, y),
        forall|m: int|
            0 <= m < boxes@.len() ==> rect_within(
                #[trigger] boxes@[m]@,
                0,
                raster.spec_x_size(order) as int,
                raster.spec_y_size(order) as int,
            ),
{
    let extent = raster.extent(order);
    find_boxes_between(raster, nodata, order, 0, extent.0)
}

} // verus!
