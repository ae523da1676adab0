use vstd::prelude::*;

verus! {

/// `h3o::error::InvalidLatLng`, carried through unread: the coordinate that
/// the grid refused and the reason it gave.
#[verifier::external_type_specification]
#[verifier::external_body]
pub struct ExInvalidLatLng(h3o::error::InvalidLatLng);

/// `h3o::error::InvalidGeometry`, carried through unread: why the grid could
/// not tile a shape.
#[verifier::external_type_specification]
#[verifier::external_body]
pub struct ExInvalidGeometry(h3o::error::InvalidGeometry);

/// `h3o::error::InvalidResolution`, carried through unread: the number that
/// is no resolution.
#[verifier::external_type_specification]
#[verifier::external_body]
pub struct ExInvalidResolution(h3o::error::InvalidResolution);

/// `h3o::error::CompactionError`, carried through unread: why the grid
/// refused to compact a set of cells.
#[verifier::external_type_specification]
#[verifier::external_body]
pub struct ExCompactionError(h3o::error::CompactionError);

/// What can go wrong while a raster is converted. The errors of the grid
/// are carried as the grid made them; they print themselves.
#[derive(Debug)]
pub enum Error {
    /// The affine transform has no inverse.
    TransformNotInvertible,
    /// One of the array's dimensions is zero.
    EmptyArray,
    /// A computed point is no valid latitude and longitude.
    InvalidLatLng(h3o::error::InvalidLatLng),
    /// A window could not be turned into a shape that can be tiled.
    InvalidGeometry(h3o::error::InvalidGeometry),
    /// A number outside the range of resolutions.
    InvalidResolution(h3o::error::InvalidResolution),
    /// The grid refused to compact a set of cells.
    CompactionError(h3o::error::CompactionError),
}

} // verus!
