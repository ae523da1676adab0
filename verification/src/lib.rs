//! Conversion of two-dimensional raster grids into H3 cell coverages.
//!
//! A raster is a grid of pixels with a value each. For every value, the
//! conversion finds the cells of the hexagonal grid whose centre lies on a
//! pixel with that value, and keeps them in a [`CellCoverage`]: a set of
//! cells by resolution that can be compacted into the fewest cells that
//! cover the same area.
//!
//! The library works on whole numbers only. A caller hands it the raster as
//! a [`raster::Raster`] of numbers that stand for the pixels' values, asks
//! [`H3Converter::rects_with_data`] for the windows that hold data, tiles
//! each window with cells, and hands back every cell with the pixel under
//! its centre as an [`array::Sample`]. Geographic coordinates, which are
//! floating-point numbers, stay with the caller.

pub mod array;
pub mod axis;
pub mod buckets;
pub mod cell;
pub mod coverage;
pub mod error;
pub mod raster;
pub mod reduce;
pub mod resolution;
mod seen;
pub mod sorting;
pub mod sparse;
pub mod values;
pub mod windows;

pub use crate::array::H3Converter;
pub use crate::axis::AxisOrder;
pub use crate::cell::Cell;
pub use crate::coverage::CellCoverage;
pub use crate::error::Error;
pub use crate::resolution::ResolutionSearchMode;
pub use crate::values::CoverageMap;
