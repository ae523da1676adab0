use crate::axis::AxisOrder;
use vstd::prelude::*;

verus! {

/// A borrowed two-dimensional grid of raster values, held as an
/// `ndarray::ArrayView2`. A raster value stands in it as a `u64`: two pixels
/// hold the same number exactly when they hold the same value.
#[verifier::external_body]
pub struct Raster<'a> {
    view: ndarray::ArrayView2<'a, u64>,
}

/// The values of the grid, row by row: the member `[i][j]` is the element at
/// index `i` of the first dimension and `j` of the second.
pub uninterp spec fn raster_rows(raster: Raster) -> Seq<Seq<u64>>;

/// The length of the second dimension of the grid, which every row has.
pub uninterp spec fn raster_width(raster: Raster) -> nat;

/// Whether a grid of `rows` by `cols` can be laid over `len` values: the
/// values suffice, and the dimensions that are not zero have a product of
/// at most `isize::MAX`.
pub open spec fn shape_fits(rows: nat, cols: nat, len: nat) -> bool {
    let tall = if rows == 0 {
        1
    } else {
        rows
    };
    let wide = if cols == 0 {
        1
    } else {
        cols
    };
    tall * wide <= isize::MAX && rows * cols <= len
}

/// The grid has `rows` rows of `cols` values each, which are the first
/// values of `values` in row-major order.
pub open spec fn is_grid_over(raster: Raster, rows: nat, cols: nat, values: Seq<u64>) -> bool {
    &&& raster_rows(raster).len() == rows
    &&& raster_width(raster) == cols
    &&& forall|i: int| 0 <= i < rows ==> (#[trigger] raster_rows(raster)[i]).len() == cols
    &&& forall|i: int, j: int|
        0 <= i < rows && 0 <= j < cols ==> #[trigger] raster_rows(raster)[i][j] == values[i * cols
            + j]
}

/// `ndarray::ArrayView2::from_shape` with the shape `(rows, cols)`: a view
/// of the first `rows * cols` values in row-major order. It is refused
/// exactly where the shape does not fit the values.
#[verifier::external_body]
fn view_over<'a>(rows: usize, cols: usize, values: &'a [u64]) -> (raster: Option<Raster<'a>>)
    ensures
        (raster is Some) == shape_fits(rows as nat, cols as nat, values@.len()),
        raster is Some ==> is_grid_over(raster->Some_0, rows as nat, cols as nat, values@),
{
    ndarray::ArrayView2::from_shape((rows, cols), values).ok().map(|view| Raster { view })
}

/// `ndarray::ArrayBase::dim`: the lengths of the two dimensions. Neither
/// exceeds `isize::MAX`, and every row has the length of the second.
#[verifier::external_body]
fn view_dim(raster: &Raster) -> (dim: (usize, usize))
    ensures
        dim.0 == raster_rows(*raster).len(),
        dim.1 == raster_width(*raster),
        dim.0 <= isize::MAX,
        dim.1 <= isize::MAX,
        forall|i: int| 0 <= i < dim.0 ==> (#[trigger] raster_rows(*raster)[i]).len() == dim.1,
{
    raster.view.dim()
}

/// `ndarray::ArrayBase::get` at `[i, j]`: the element there, or nothing
/// where the index lies outside the grid.
#[verifier::external_body]
fn view_get(raster: &Raster, i: usize, j: usize) -> (value: Option<u64>)
    ensures
        (value is Some) == (i < raster_rows(*raster).len() && j < raster_width(*raster)),
        value is Some ==> value->Some_0 == raster_rows(*raster)[i as int][j as int],
{
    raster.view.get([i, j]).copied()
}

impl<'a> Raster<'a> {
    /// The rows of the grid.
    pub open spec fn rows(&self) -> Seq<Seq<u64>> {
        raster_rows(*self)
    }

    /// The length of every row.
    pub open spec fn width(&self) -> nat {
        raster_width(*self)
    }

    /// The extent of the grid along x.
    pub open spec fn spec_x_size(&self, order: AxisOrder) -> nat {
        match order {
            AxisOrder::XY => self.rows().len(),
            AxisOrder::YX => self.width(),
        }
    }

    /// The extent of the grid along y.
    pub open spec fn spec_y_size(&self, order: AxisOrder) -> nat {
        match order {
            AxisOrder::XY => self.width(),
            AxisOrder::YX => self.rows().len(),
        }
    }

    /// The value of the pixel `(x, y)`.
    pub open spec fn spec_value(&self, order: AxisOrder, x: int, y: int) -> u64 {
        match order {
            AxisOrder::XY => self.rows()[x][y],
            AxisOrder::YX => self.rows()[y][x],
        }
    }

    /// A grid of `rows` by `cols` over the first values of `values`, which
    /// are its rows one after the other; nothing where the shape does not
    /// fit the values.
    pub fn new(rows: usize, cols: usize, values: &'a [u64]) -> (raster: Option<Raster<'a>>)
        ensures
            (raster is Some) == shape_fits(rows as nat, cols as nat, values@.len()),
            raster is Some ==> is_grid_over(raster->Some_0, rows as nat, cols as nat, values@),
    {
        view_over(rows, cols, values)
    }

    /// The lengths of the first and of the second dimension.
    pub fn shape(&self) -> (shape: (usize, usize))
        ensures
            shape.0 == self.rows().len(),
            shape.1 == self.width(),
            shape.0 <= isize::MAX,
            shape.1 <= isize::MAX,
            forall|i: int| 0 <= i < shape.0 ==> (#[trigger] self.rows()[i]).len() == shape.1,
    {
        view_dim(self)
    }

    /// The extents of the grid along x and along y.
    pub fn extent(&self, order: AxisOrder) -> (extent: (usize, usize))
        ensures
            extent.0 == self.spec_x_size(order),
            extent.1 == self.spec_y_size(order),
            extent.0 <= isize::MAX,
            extent.1 <= isize::MAX,
            forall|i: int| 0 <= i < self.rows().len() ==> (#[trigger] self.rows()[i]).len() == self.width(),
    {
        let shape = view_dim(self);
        match order {
            AxisOrder::XY => (shape.0, shape.1),
            AxisOrder::YX => (shape.1, shape.0),
        }
    }

    /// The value of the pixel `(x, y)`, or nothing where the grid has no
    /// such pixel.
    pub fn value_at(&self, order: AxisOrder, x: usize, y: usize) -> (value: Option<u64>)
        ensures
            (value is Some) == (x < self.spec_x_size(order) && y < self.spec_y_size(order)),
            value is Some ==> value->Some_0 == self.spec_value(order, x as int, y as int),
    {
        match order {
            AxisOrder::XY => view_get(self, x, y),
            AxisOrder::YX => view_get(self, y, x),
        }
    }
}

} // verus!
