use vstd::prelude::*;

verus! {

/// The order of the axes of a two-dimensional array.
#[derive(Copy, Clone, Debug, PartialEq, Eq, Structural)]
#[allow(clippy::upper_case_acronyms)]
pub enum AxisOrder {
    /// `X,Y` ordering: the first array dimension runs along x.
    XY,
    /// `Y,X` ordering: the first array dimension runs along y.
    YX,
}

impl AxisOrder {
    /// The array dimension that runs along x.
    pub open spec fn spec_x_axis(self) -> int {
        match self {
            AxisOrder::XY => 0,
            AxisOrder::YX => 1,
        }
    }

    /// The array dimension that runs along y.
    pub open spec fn spec_y_axis(self) -> int {
        1 - self.spec_x_axis()
    }

    /// Index of the array dimension that holds the x coordinate.
    pub fn x_axis(&self) -> (axis: usize)
        ensures
            axis == self.spec_x_axis(),
            axis == 0 || axis == 1,
    {
        match self {
            AxisOrder::XY => 0,
            AxisOrder::YX => 1,
        }
    }

    /// Index of the array dimension that holds the y coordinate.
    pub fn y_axis(&self) -> (axis: usize)
        ensures
            axis == self.spec_y_axis(),
            axis == 0 || axis == 1,
    {
        match self {
            AxisOrder::XY => 1,
            AxisOrder::YX => 0,
        }
    }
}

} // verus!
