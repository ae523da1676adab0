use crate::error::Error;
use vstd::prelude::*;

verus! {

/// How the resolution is chosen whose cells come closest to a pixel in
/// size.
#[derive(Copy, Clone, Debug, PartialEq, Eq, Structural)]
pub enum ResolutionSearchMode {
    /// The resolution at which the areas of a cell and of a pixel differ
    /// least, as far as a search finds it that stops where the difference
    /// first grows.
    MinDiff,
    /// The coarsest resolution whose cell is not larger than a pixel.
    SmallerThanPixel,
}

/// How the area of the cell at the centre of the raster compares to the
/// mean area of a pixel, for each of the sixteen resolutions.
#[derive(Copy, Clone, Debug)]
pub struct AreaOrder {
    /// At place `r`: the cell of resolution `r` is not larger than a pixel.
    pub cell_fits: [bool; 16],
    /// At place `r`, for `r` from 1 on: the areas of cell and pixel differ
    /// more at resolution `r` than at resolution `r - 1`.
    pub diff_grew: [bool; 16],
}

/// `at` is the first place from `from` on at which `flags` is set.
pub open spec fn is_first_set(flags: Seq<bool>, from: int, at: int) -> bool {
    &&& from <= at < flags.len()
    &&& flags[at]
    &&& forall|j: int| from <= j < at ==> !flags[j]
}

/// `flags` is set nowhere from `from` on.
pub open spec fn none_set(flags: Seq<bool>, from: int) -> bool {
    forall|j: int| from <= j < flags.len() ==> !flags[j]
}

/// The resolution that the search in `mode` arrives at.
///
/// `SmallerThanPixel` takes the first resolution whose cell fits. `MinDiff`
/// goes from resolution to resolution and stops where the difference to
/// the pixel is larger than it was one resolution before; it takes the
/// resolution before. Where the search has tried all sixteen resolutions
/// and found no such place, the answer is the last one tried, resolution
/// 15.
pub open spec fn is_selected(mode: ResolutionSearchMode, areas: AreaOrder, resolution: int) -> bool {
    match mode {
        ResolutionSearchMode::SmallerThanPixel => {
            ||| is_first_set(areas.cell_fits@, 0, resolution)
            ||| none_set(areas.cell_fits@, 0) && resolution == 15
        },
        ResolutionSearchMode::MinDiff => {
            ||| is_first_set(areas.diff_grew@, 1, resolution + 1)
            ||| none_set(areas.diff_grew@, 1) && resolution == 15
        },
    }
}

/// The search has one answer.
pub proof fn lemma_selected_unique(
    mode: ResolutionSearchMode,
    areas: AreaOrder,
    one: int,
    other: int,
)
    requires
        is_selected(mode, areas, one),
        is_selected(mode, areas, other),
    ensures
        one == other,
{
    let flags = match mode {
        ResolutionSearchMode::SmallerThanPixel => areas.cell_fits@,
        ResolutionSearchMode::MinDiff => areas.diff_grew@,
    };
    let shift = match mode {
        ResolutionSearchMode::SmallerThanPixel => 0int,
        ResolutionSearchMode::MinDiff => 1int,
    };
    if is_first_set(flags, shift, one + shift) && is_first_set(flags, shift, other + shift) {
        if one < other {
            assert(!flags[one + shift]);
        }
        if other < one {
            assert(!flags[other + shift]);
        }
    }
}

/// The first place from `from` on at which `flags` is set.
fn first_set(flags: &[bool; 16], from: usize) -> (at: Option<usize>)
    requires
        from <= 16,
    ensures
        at is Some ==> is_first_set(flags@, from as int, at->Some_0 as int),
        at is None ==> none_set(flags@, from as int),
{
    let mut i: usize = from;
    while i < 16
        invariant
            from <= i <= 16,
            forall|j: int| from <= j < i ==> !flags@[j],
        decreases 16 - i,
    {
        if flags[i] {
            return Some(i);
        }
        i = i + 1;
    }
    None
}

/// Refuses the shape of a raster without pixels.
pub fn require_pixels(shape: [usize; 2]) -> (result: Result<(), Error>)
    ensures
        (result is Err) == (shape[0] == 0 || shape[1] == 0),
        result is Err ==> result->Err_0 is EmptyArray,
{
    if shape[0] == 0 || shape[1] == 0 {
        Err(Error::EmptyArray)
    } else {
        Ok(())
    }
}

impl ResolutionSearchMode {
    /// The resolution whose cells come closest to the size of a pixel of a
    /// raster of the given shape. A raster without pixels has none.
    pub fn nearest_h3_resolution(&self, shape: [usize; 2], areas: &AreaOrder) -> (result: Result<u8, Error>)
        ensures
            (result is Err) == (shape[0] == 0 || shape[1] == 0),
            result is Err ==> result->Err_0 is EmptyArray,
            result is Ok ==> result->Ok_0 <= 15 && is_selected(*self, *areas, result->Ok_0 as int),
    {
        match require_pixels(shape) {
            Err(refused) => {
                return Err(refused);
            },
            Ok(_) => {},
        }
        let found = match self {
            ResolutionSearchMode::SmallerThanPixel => first_set(&areas.cell_fits, 0),
            ResolutionSearchMode::MinDiff => first_set(&areas.diff_grew, 1),
        };
        let resolution: usize = match found {
            Some(at) => match self {
                ResolutionSearchMode::SmallerThanPixel => at,
                ResolutionSearchMode::MinDiff => at - 1,
            },
            None => 15,
        };
        Ok(resolution as u8)
    }
}

} // verus!
