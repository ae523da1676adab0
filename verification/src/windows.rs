use crate::sparse::{boxes_in, lemma_boxes_cover, rect_holds, rects_view, PixelRect};
use vstd::arithmetic::div_mod::{lemma_fundamental_div_mod, lemma_mod_bound};
use vstd::arithmetic::mul::lemma_mul_inequality;
use vstd::prelude::*;

verus! {

/// The smaller of two numbers.
pub open spec fn spec_min(a: int, b: int) -> int {
    if a <= b {
        a
    } else {
        b
    }
}

/// The edge length of the windows for an array that is `x_size` pixels
/// wide: a tenth of the width, but at least 10 and at most 100.
pub open spec fn spec_chunk_size(x_size: int) -> int {
    if x_size / 10 < 10 {
        10
    } else if x_size / 10 > 100 {
        100
    } else {
        x_size / 10
    }
}

/// The edge length of the windows for an array that is `x_size` pixels
/// wide.
pub fn chunk_size(x_size: usize) -> (edge: usize)
    ensures
        edge == spec_chunk_size(x_size as int),
        10 <= edge <= 100,
{
    let tenth = x_size / 10;
    if tenth < 10 {
        10
    } else if tenth > 100 {
        100
    } else {
        tenth
    }
}

/// How many pieces of length `edge` it takes to lay out `size`, the last
/// one possibly shorter.
pub open spec fn tiles_along(size: int, edge: int) -> int {
    size / edge + if size % edge == 0 {
        0int
    } else {
        1int
    }
}

/// Every piece starts before the end of what is laid out, and after the
/// last one nothing is left.
pub proof fn lemma_tile_start(size: int, edge: int, r: int)
    requires
        0 <= size,
        0 < edge,
    ensures
        0 <= tiles_along(size, edge),
        0 <= r < tiles_along(size, edge) ==> 0 <= r * edge < size,
        size <= tiles_along(size, edge) * edge,
{
    lemma_fundamental_div_mod(size, edge);
    lemma_mod_bound(size, edge);
    let q = size / edge;
    assert(q >= 0) by (nonlinear_arith)
        requires
            size == edge * q + size % edge,
            0 <= size % edge < edge,
            0 <= size,
            0 < edge,
    ;
    if 0 <= r < tiles_along(size, edge) {
        assert(0 <= r * edge) by (nonlinear_arith)
            requires
                0 <= r,
                0 < edge,
        ;
        if size % edge == 0 {
            lemma_mul_inequality(r, q - 1, edge);
            assert((q - 1) * edge == edge * q - edge) by (nonlinear_arith);
        } else {
            lemma_mul_inequality(r, q, edge);
            assert(q * edge == edge * q) by (nonlinear_arith);
        }
    }
    assert(size <= tiles_along(size, edge) * edge) by (nonlinear_arith)
        requires
            size == edge * q + size % edge,
            0 <= size % edge < edge,
            tiles_along(size, edge) == q + if size % edge == 0 {
                0int
            } else {
                1int
            },
    ;
}

/// How many pieces of length `edge` it takes to lay out `size`.
pub fn count_tiles(size: usize, edge: usize) -> (n: usize)
    requires
        edge > 0,
    ensures
        n == tiles_along(size as int, edge as int),
{
    proof {
        lemma_tile_start(size as int, edge as int, 0);
        lemma_fundamental_div_mod(size as int, edge as int);
        lemma_mod_bound(size as int, edge as int);
        let q = size as int / edge as int;
        assert(size % edge != 0 ==> q < size) by (nonlinear_arith)
            requires
                size == edge * q + size % edge,
                0 <= size % edge < edge,
                0 < edge,
                0 <= q,
        ;
    }
    if size % edge == 0 {
        size / edge
    } else {
        size / edge + 1
    }
}

/// The window in column `r_x` and row `r_y` of the regular grid of windows
/// with the edge `edge` over an array of `x_size` by `y_size`: its upper
/// bounds stop at the end of the array and belong to it no more.
pub open spec fn grid_tile(x_size: int, y_size: int, edge: int, r_x: int, r_y: int) -> (
    int,
    int,
    int,
    int,
)
{
    (r_x * edge, r_y * edge, spec_min(x_size, (r_x + 1) * edge), spec_min(y_size, (r_y + 1) * edge))
}

/// The windows of column `r_x` of the grid, from the first row on.
pub open spec fn grid_column(x_size: int, y_size: int, edge: int, r_x: int) -> Seq<
    (int, int, int, int),
> {
    Seq::new(
        tiles_along(y_size, edge) as nat,
        |r_y: int| grid_tile(x_size, y_size, edge, r_x, r_y),
    )
}

/// The windows of the first `upto` columns of the grid, column after
/// column.
pub open spec fn grid_tiles(x_size: int, y_size: int, edge: int, upto: int) -> Seq<
    (int, int, int, int),
>
    decreases upto,
{
    if upto <= 0 {
        Seq::empty()
    } else {
        grid_tiles(x_size, y_size, edge, upto - 1) + grid_column(x_size, y_size, edge, upto - 1)
    }
}

/// The start of piece `r` and where it ends: at the start of the next
/// piece, or at `size` where that comes first.
fn tile_span(size: usize, edge: usize, r: usize) -> (span: (usize, usize))
    requires
        edge > 0,
        r < tiles_along(size as int, edge as int),
    ensures
        span.0 == r * edge,
        span.1 == spec_min(size as int, (r + 1) * edge),
        span.0 < span.1 <= size,
{
    proof {
        lemma_tile_start(size as int, edge as int, r as int);
        assert((r + 1) * edge == r * edge + edge) by (nonlinear_arith);
    }
    let lo = r * edge;
    let hi = if size - lo <= edge {
        size
    } else {
        lo + edge
    };
    (lo, hi)
}

/// The regular grid of windows with the edge `edge` over an array of
/// `x_size` by `y_size` pixels, column after column.
pub fn grid_rects(x_size: usize, y_size: usize, edge: usize) -> (rects: Vec<PixelRect>)
    requires
        edge > 0,
    ensures
        rects_view(rects@) == grid_tiles(
            x_size as int,
            y_size as int,
            edge as int,
            tiles_along(x_size as int, edge as int),
        ),
{
    let nx = count_tiles(x_size, edge);
    let ny = count_tiles(y_size, edge);
    let mut rects: Vec<PixelRect> = Vec::new();
    assert(rects_view(rects@) =~= Seq::<(int, int, int, int)>::empty());
    let mut r_x: usize = 0;
    while r_x < nx
        invariant
            r_x <= nx,
            edge > 0,
            nx == tiles_along(x_size as int, edge as int),
            ny == tiles_along(y_size as int, edge as int),
            rects_view(rects@) == grid_tiles(x_size as int, y_size as int, edge as int, r_x as int),
        decreases nx - r_x,
    {
        let (x_lo, x_hi) = tile_span(x_size, edge, r_x);
        let ghost done = rects_view(rects@);
        let ghost column = grid_column(x_size as int, y_size as int, edge as int, r_x as int);
        let mut r_y: usize = 0;
        assert(rects_view(rects@) =~= done + column.subrange(0, 0));
        while r_y < ny
            invariant
                r_y <= ny,
                edge > 0,
                ny == tiles_along(y_size as int, edge as int),
                x_lo == r_x * edge,
                x_hi == spec_min(x_size as int, (r_x + 1) * edge),
                column == grid_column(x_size as int, y_size as int, edge as int, r_x as int),
                rects_view(rects@) == done + column.subrange(0, r_y as int),
            decreases ny - r_y,
        {
            let (y_lo, y_hi) = tile_span(y_size, edge, r_y);
            let ghost listed = rects_view(rects@);
            rects.push(PixelRect { min_x: x_lo, min_y: y_lo, max_x: x_hi, max_y: y_hi });
            proof {
                assert(rects_view(rects@) =~= listed.push(
                    (x_lo as int, y_lo as int, x_hi as int, y_hi as int),
                ));
                assert(column.subrange(0, r_y + 1) =~= column.subrange(0, r_y as int).push(
                    column[r_y as int],
                ));
                assert(rects_view(rects@) =~= done + column.subrange(0, r_y + 1));
            }
            r_y = r_y + 1;
        }
        proof {
            assert(column.subrange(0, r_y as int) =~= column);
        }
        r_x = r_x + 1;
    }
    rects
}

/// The pixel `(x, y)` lies in the window `rect`, whose upper bounds belong
/// to it no more.
pub open spec fn window_holds(rect: (int, int, int, int), x: int, y: int) -> bool {
    rect.0 <= x < rect.2 && rect.1 <= y < rect.3
}

/// Into how many windows a rectangle is cut that spans `height` rows beyond
/// its first: one for every `edge` of them, and one where there is none.
pub open spec fn box_tile_count(height: int, edge: int) -> int {
    if height == 0 {
        1
    } else {
        tiles_along(height, edge)
    }
}

/// Window `j` of the rectangle `found`, which holds its bounds: the window
/// spans the rectangle along x and reaches one past its last column. Along
/// y it starts `j * edge` rows after the first row and reaches one past the
/// start of the next window, or one past the last row where that comes
/// first.
pub open spec fn box_tile(found: (int, int, int, int), edge: int, j: int) -> (int, int, int, int)
{
    let height = found.3 - found.1;
    (found.0, found.1 + j * edge, found.2 + 1, found.1 + spec_min(height, (j + 1) * edge) + 1)
}

/// The windows into which the rectangle `found` is cut, from its first row
/// on.
pub open spec fn box_tiles(found: (int, int, int, int), edge: int) -> Seq<(int, int, int, int)> {
    Seq::new(
        box_tile_count(found.3 - found.1, edge) as nat,
        |j: int| box_tile(found, edge, j),
    )
}

/// The windows of the first `upto` rectangles of `boxes`, rectangle after
/// rectangle.
pub open spec fn tiles_of_boxes(boxes: Seq<(int, int, int, int)>, edge: int, upto: int) -> Seq<
    (int, int, int, int),
>
    decreases upto,
{
    if upto <= 0 {
        Seq::empty()
    } else {
        tiles_of_boxes(boxes, edge, upto - 1) + box_tiles(boxes[upto - 1], edge)
    }
}

/// Every pixel of a rectangle lies in one of the windows into which it is
/// cut.
pub proof fn lemma_box_tiles_cover(found: (int, int, int, int), edge: int, x: int, y: int)
    requires
        edge > 0,
        found.0 <= x <= found.2,
        found.1 <= y <= found.3,
    ensures
        exists|j: int|
            0 <= j < box_tiles(found, edge).len() && window_holds(
                #[trigger] box_tiles(found, edge)[j],
                x,
                y,
            ),
{
    let height = found.3 - found.1;
    let dy = y - found.1;
    if height == 0 {
        assert(spec_min(height, (0 + 1) * edge) == 0) by (nonlinear_arith)
            requires
                height == 0,
                edge > 0,
        ;
        assert(0 * edge == 0) by (nonlinear_arith);
        assert(window_holds(box_tiles(found, edge)[0], x, y));
    } else {
        let n = tiles_along(height, edge);
        lemma_tile_start(height, edge, 0);
        lemma_fundamental_div_mod(dy, edge);
        lemma_mod_bound(dy, edge);
        let q = dy / edge;
        assert(0 <= q) by (nonlinear_arith)
            requires
                dy == edge * q + dy % edge,
                0 <= dy % edge < edge,
                0 <= dy,
                edge > 0,
        ;
        assert(n >= 1) by (nonlinear_arith)
            requires
                height <= n * edge,
                height > 0,
                edge > 0,
        ;
        let j = if q <= n - 1 {
            q
        } else {
            n - 1
        };
        assert(j * edge <= dy && dy <= spec_min(height, (j + 1) * edge)) by (nonlinear_arith)
            requires
                dy == edge * q + dy % edge,
                0 <= dy % edge < edge,
                0 <= dy <= height,
                height <= n * edge,
                edge > 0,
                0 <= q,
                n >= 1,
                j == if q <= n - 1 {
                    q
                } else {
                    n - 1
                },
        ;
        assert(window_holds(box_tiles(found, edge)[j], x, y));
    }
}

/// A window of one rectangle is a window of the rectangles.
pub proof fn lemma_tiles_contain(
    boxes: Seq<(int, int, int, int)>,
    edge: int,
    upto: int,
    m: int,
    tile: (int, int, int, int),
)
    requires
        0 <= m < upto,
        box_tiles(boxes[m], edge).contains(tile),
    ensures
        tiles_of_boxes(boxes, edge, upto).contains(tile),
    decreases upto,
{
    let head = tiles_of_boxes(boxes, edge, upto - 1);
    let tail = box_tiles(boxes[upto - 1], edge);
    if m == upto - 1 {
        let at = choose|at: int| 0 <= at < tail.len() && tail[at] == tile;
        assert((head + tail)[head.len() + at] == tile);
    } else {
        lemma_tiles_contain(boxes, edge, upto - 1, m, tile);
        let at = choose|at: int| 0 <= at < head.len() && head[at] == tile;
        assert((head + tail)[at] == tile);
    }
}

/// Puts the windows into which `found` is cut at the end of `out`.
pub fn push_box_rects(found: PixelRect, edge: usize, out: &mut Vec<PixelRect>)
    requires
        edge > 0,
        found.min_x <= found.max_x < usize::MAX,
        found.min_y <= found.max_y < usize::MAX,
    ensures
        rects_view(final(out)@) == rects_view(old(out)@) + box_tiles(found@, edge as int),
{
    let height = found.max_y - found.min_y;
    let ghost whole = box_tiles(found@, edge as int);
    let ghost done = rects_view(out@);
    assert(rects_view(out@) =~= done + whole.subrange(0, 0));
    if height == 0 {
        out.push(
            PixelRect {
                min_x: found.min_x,
                min_y: found.min_y,
                max_x: found.max_x + 1,
                max_y: found.min_y + 1,
            },
        );
        proof {
            assert(0 * edge == 0) by (nonlinear_arith);
            assert(spec_min(0, (0 + 1) * edge) == 0) by (nonlinear_arith)
                requires
                    edge > 0,
            ;
            assert(rects_view(out@) =~= done + whole);
        }
        return ;
    }
    let count = count_tiles(height, edge);
    let mut j: usize = 0;
    while j < count
        invariant
            j <= count,
            edge > 0,
            height > 0,
            height == found.max_y - found.min_y,
            found.min_x <= found.max_x < usize::MAX,
            found.min_y <= found.max_y < usize::MAX,
            count == tiles_along(height as int, edge as int),
            whole == box_tiles(found@, edge as int),
            rects_view(out@) == done + whole.subrange(0, j as int),
        decreases count - j,
    {
        let (lo, hi) = tile_span(height, edge, j);
        let ghost listed = rects_view(out@);
        let tile = PixelRect {
            min_x: found.min_x,
            min_y: found.min_y + lo,
            max_x: found.max_x + 1,
            max_y: found.min_y + hi + 1,
        };
        out.push(tile);
        proof {
            assert(rects_view(out@) =~= listed.push(tile@));
            assert(whole[j as int] == tile@);
            assert(whole.subrange(0, j + 1) =~= whole.subrange(0, j as int).push(whole[j as int]));
            assert(rects_view(out@) =~= done + whole.subrange(0, j + 1));
        }
        j = j + 1;
    }
    proof {
        assert(whole.subrange(0, j as int) =~= whole);
    }
}

/// A place below `size` lies in the piece `place / edge`, which is one of
/// the pieces that lay out `size`.
pub proof fn lemma_piece_of(size: int, edge: int, place: int)
    requires
        0 <= place < size,
        0 < edge,
    ensures
        0 <= place / edge < tiles_along(size, edge),
        (place / edge) * edge <= place < spec_min(size, (place / edge + 1) * edge),
{
    lemma_fundamental_div_mod(place, edge);
    lemma_mod_bound(place, edge);
    lemma_tile_start(size, edge, 0);
    let r = place / edge;
    let n = tiles_along(size, edge);
    assert(0 <= r && r < n && r * edge <= place && place < (r + 1) * edge) by (nonlinear_arith)
        requires
            place == edge * r + place % edge,
            0 <= place % edge < edge,
            0 <= place < size,
            size <= n * edge,
            0 < edge,
    ;
}

/// The windows of the regular grid do not overlap: a pixel lies in one
/// window only.
pub proof fn lemma_grid_tiles_disjoint(
    x_size: int,
    y_size: int,
    edge: int,
    one: (int, int),
    other: (int, int),
    x: int,
    y: int,
)
    requires
        edge > 0,
        window_holds(grid_tile(x_size, y_size, edge, one.0, one.1), x, y),
        window_holds(grid_tile(x_size, y_size, edge, other.0, other.1), x, y),
    ensures
        one == other,
{
    assert(one.0 == other.0) by (nonlinear_arith)
        requires
            edge > 0,
            one.0 * edge <= x < (one.0 + 1) * edge,
            other.0 * edge <= x < (other.0 + 1) * edge,
    ;
    assert(one.1 == other.1) by (nonlinear_arith)
        requires
            edge > 0,
            one.1 * edge <= y < (one.1 + 1) * edge,
            other.1 * edge <= y < (other.1 + 1) * edge,
    ;
}

/// A window of one column of the grid is a window of the grid.
pub proof fn lemma_grid_contain(
    x_size: int,
    y_size: int,
    edge: int,
    upto: int,
    r_x: int,
    tile: (int, int, int, int),
)
    requires
        0 <= r_x < upto,
        grid_column(x_size, y_size, edge, r_x).contains(tile),
    ensures
        grid_tiles(x_size, y_size, edge, upto).contains(tile),
    decreases upto,
{
    let head = grid_tiles(x_size, y_size, edge, upto - 1);
    let tail = grid_column(x_size, y_size, edge, upto - 1);
    if r_x == upto - 1 {
        let at = choose|at: int| 0 <= at < tail.len() && tail[at] == tile;
        assert((head + tail)[head.len() + at] == tile);
    } else {
        lemma_grid_contain(x_size, y_size, edge, upto - 1, r_x, tile);
        let at = choose|at: int| 0 <= at < head.len() && head[at] == tile;
        assert((head + tail)[at] == tile);
    }
}

/// Every pixel of the array lies in one of the windows of the regular
/// grid.
pub proof fn lemma_grid_cover(x_size: int, y_size: int, edge: int, x: int, y: int)
    requires
        edge > 0,
        0 <= x < x_size,
        0 <= y < y_size,
    ensures
        exists|m: int|
            0 <= m < grid_tiles(x_size, y_size, edge, tiles_along(x_size, edge)).len()
                && window_holds(
                #[trigger] grid_tiles(x_size, y_size, edge, tiles_along(x_size, edge))[m],
                x,
                y,
            ),
{
    lemma_piece_of(x_size, edge, x);
    lemma_piece_of(y_size, edge, y);
    let r_x = x / edge;
    let r_y = y / edge;
    let tile = grid_tile(x_size, y_size, edge, r_x, r_y);
    assert(grid_column(x_size, y_size, edge, r_x)[r_y] == tile);
    lemma_grid_contain(x_size, y_size, edge, tiles_along(x_size, edge), r_x, tile);
    let all = grid_tiles(x_size, y_size, edge, tiles_along(x_size, edge));
    let m = choose|m: int| 0 <= m < all.len() && all[m] == tile;
    assert(window_holds(all[m], x, y));
}

/// The windows of strip `i` of the array: the strip spans `edge` columns,
/// the rectangles that hold its data are found, and each is cut into
/// windows.
pub open spec fn chunk_windows(
    data: spec_fn(int, int) -> bool,
    x_size: int,
    y_size: int,
    edge: int,
    i: int,
) -> Seq<(int, int, int, int)> {
    let found = boxes_in(data, i * edge, spec_min(x_size, (i + 1) * edge), y_size);
    tiles_of_boxes(found, edge, found.len() as int)
}

/// The windows of the first `upto` strips of the array, strip after strip.
pub open spec fn sparse_windows(
    data: spec_fn(int, int) -> bool,
    x_size: int,
    y_size: int,
    edge: int,
    upto: int,
) -> Seq<(int, int, int, int)>
    decreases upto,
{
    if upto <= 0 {
        Seq::empty()
    } else {
        sparse_windows(data, x_size, y_size, edge, upto - 1) + chunk_windows(
            data,
            x_size,
            y_size,
            edge,
            upto - 1,
        )
    }
}

/// A window of one strip is a window of the strips.
pub(crate) proof fn lemma_sparse_contain(
    data: spec_fn(int, int) -> bool,
    x_size: int,
    y_size: int,
    edge: int,
    upto: int,
    i: int,
    tile: (int, int, int, int),
)
    requires
        0 <= i < upto,
        chunk_windows(data, x_size, y_size, edge, i).contains(tile),
    ensures
        sparse_windows(data, x_size, y_size, edge, upto).contains(tile),
    decreases upto,
{
    let head = sparse_windows(data, x_size, y_size, edge, upto - 1);
    let tail = chunk_windows(data, x_size, y_size, edge, upto - 1);
    if i == upto - 1 {
        let at = choose|at: int| 0 <= at < tail.len() && tail[at] == tile;
        assert((head + tail)[head.len() + at] == tile);
    } else {
        lemma_sparse_contain(data, x_size, y_size, edge, upto - 1, i, tile);
        let at = choose|at: int| 0 <= at < head.len() && head[at] == tile;
        assert((head + tail)[at] == tile);
    }
}

/// Every pixel that holds data lies in one of the windows found for the
/// array.
pub proof fn lemma_sparse_cover(
    data: spec_fn(int, int) -> bool,
    x_size: int,
    y_size: int,
    edge: int,
    x: int,
    y: int,
)
    requires
        edge > 0,
        0 <= x < x_size,
        0 <= y < y_size,
        data(x, y),
    ensures
        exists|m: int|
            0 <= m < sparse_windows(data, x_size, y_size, edge, tiles_along(x_size, edge)).len()
                && window_holds(
                #[trigger] sparse_windows(data, x_size, y_size, edge, tiles_along(x_size, edge))[m],
                x,
                y,
            ),
{
    lemma_piece_of(x_size, edge, x);
    let i = x / edge;
    let x_from = i * edge;
    let x_to = spec_min(x_size, (i + 1) * edge);
    let found = boxes_in(data, x_from, x_to, y_size);
    lemma_boxes_cover(data, x_from, x_to, y_size, x, y);
    let m = choose|m: int| 0 <= m < found.len() && rect_holds(#[trigger] found[m], x, y);
    lemma_box_tiles_cover(found[m], edge, x, y);
    let tiles = box_tiles(found[m], edge);
    let j = choose|j: int| 0 <= j < tiles.len() && window_holds(#[trigger] tiles[j], x, y);
    let tile = tiles[j];
    lemma_tiles_contain(found, edge, found.len() as int, m, tile);
    lemma_sparse_contain(data, x_size, y_size, edge, tiles_along(x_size, edge), i, tile);
    let all = sparse_windows(data, x_size, y_size, edge, tiles_along(x_size, edge));
    let at = choose|at: int| 0 <= at < all.len() && all[at] == tile;
    assert(window_holds(all[at], x, y));
}

} // verus!
