use crate::axis::AxisOrder;
use crate::buckets::{
    ancestor_free, buckets_contain, buckets_cover, buckets_hold_below, buckets_rooted_in,
    empty_buckets, no_marks, spec_finalize, spec_finalize_marks,
};
use crate::cell::{
    covers_cell, lemma_covers_transitive, lemma_resolution_in_range, spec_resolution,
    no_complete_group, words_count_children, Cell,
};
use crate::error::Error;
use crate::raster::Raster;
use crate::reduce::{combine, merged_buckets, merged_has, merged_marks, rooted_in_maps};
use crate::resolution::{is_selected, AreaOrder, ResolutionSearchMode};
use crate::sparse::{data_of, find_boxes_between, rect_within, rects_view, PixelRect};
use crate::values::CoverageMap;
use crate::windows::{
    chunk_size, chunk_windows, count_tiles, grid_rects, grid_tiles, lemma_grid_cover,
    lemma_sparse_cover, lemma_tile_start, push_box_rects, sparse_windows, spec_chunk_size,
    tiles_along, tiles_of_boxes, window_holds,
};
use vstd::prelude::*;

verus! {

/// A cell of the grid together with the pixel in which its centre lies.
#[derive(Clone, Copy, Debug)]
pub struct Sample {
    pub cell: Cell,
    pub x: usize,
    pub y: usize,
}

/// Converts a two-dimensional raster to cells of the hexagonal grid, and
/// skips the regions that hold only the nodata value.
pub struct H3Converter<'a> {
    arr: &'a Raster<'a>,
    nodata_value: Option<u64>,
    axis_order: AxisOrder,
}

impl<'a> H3Converter<'a> {
    /// The raster that is converted.
    pub closed spec fn raster(&self) -> Raster<'a> {
        *self.arr
    }

    /// The value that marks pixels without data, where there is one.
    pub closed spec fn nodata(&self) -> Option<u64> {
        self.nodata_value
    }

    /// Which dimension of the raster runs along x.
    pub closed spec fn order(&self) -> AxisOrder {
        self.axis_order
    }

    /// The extent of the raster along x.
    pub open spec fn x_size(&self) -> int {
        self.raster().spec_x_size(self.order()) as int
    }

    /// The extent of the raster along y.
    pub open spec fn y_size(&self) -> int {
        self.raster().spec_y_size(self.order()) as int
    }

    /// Which pixels hold data with respect to `nodata`.
    pub open spec fn data(&self, nodata: u64) -> spec_fn(int, int) -> bool {
        data_of(self.raster(), self.order(), nodata)
    }

    /// The windows that `rects_with_data` gives for the edge `edge`.
    pub open spec fn spec_rects(&self, edge: int) -> Seq<(int, int, int, int)> {
        match self.nodata() {
            Some(nodata) => sparse_windows(
                self.data(nodata),
                self.x_size(),
                self.y_size(),
                edge,
                tiles_along(self.x_size(), edge),
            ),
            None => grid_tiles(
                self.x_size(),
                self.y_size(),
                edge,
                tiles_along(self.x_size(), edge),
            ),
        }
    }

    /// Whether the pixel `(x, y)` is one to convert: it lies in the raster
    /// and does not hold the nodata value.
    pub open spec fn wanted(&self, x: int, y: int) -> bool {
        &&& 0 <= x < self.x_size()
        &&& 0 <= y < self.y_size()
        &&& self.nodata() != Some(self.raster().spec_value(self.order(), x, y))
    }

    /// The value of the pixel in which the centre of the sample's cell
    /// lies.
    pub open spec fn sample_value(&self, sample: Sample) -> u64 {
        self.raster().spec_value(self.order(), sample.x as int, sample.y as int)
    }

    /// Whether the cell of `sample` belongs to the coverage of `value`: its
    /// pixel is one to convert and holds `value`.
    pub open spec fn takes(&self, sample: Sample, value: u64) -> bool {
        self.wanted(sample.x as int, sample.y as int) && self.sample_value(sample) == value
    }

    /// One of the first `upto` samples belongs to the coverage of `value`.
    pub open spec fn met(&self, samples: Seq<Sample>, upto: int, value: u64) -> bool {
        exists|i: int| 0 <= i < upto && i < samples.len() && self.takes(#[trigger] samples[i], value)
    }

    /// The cells of the first `upto` samples that belong to the coverage of
    /// `value`, by resolution and in the order of the samples.
    pub open spec fn picks(&self, samples: Seq<Sample>, upto: int, value: u64) -> Seq<Seq<u64>>
        decreases upto,
    {
        if upto <= 0 {
            empty_buckets()
        } else {
            let before = self.picks(samples, upto - 1, value);
            let sample = samples[upto - 1];
            if self.takes(sample, value) {
                let r = spec_resolution(sample.cell@) as int;
                before.update(r, before[r].push(sample.cell@))
            } else {
                before
            }
        }
    }

    /// The resolutions of the cells of the first `upto` samples that belong
    /// to the coverage of `value`.
    pub open spec fn pick_marks(&self, samples: Seq<Sample>, upto: int, value: u64) -> Seq<bool>
        decreases upto,
    {
        if upto <= 0 {
            no_marks()
        } else {
            let before = self.pick_marks(samples, upto - 1, value);
            let sample = samples[upto - 1];
            if self.takes(sample, value) {
                before.update(spec_resolution(sample.cell@) as int, true)
            } else {
                before
            }
        }
    }

    /// The buckets that the conversion of one window gives for `value`:
    /// the finalized cells of the samples that belong to its coverage,
    /// empty buckets where none does.
    pub open spec fn window_buckets(&self, samples: Seq<Sample>, compact: bool, value: u64) -> Seq<
        Seq<u64>,
    > {
        if self.met(samples, samples.len() as int, value) {
            spec_finalize(
                self.picks(samples, samples.len() as int, value),
                self.pick_marks(samples, samples.len() as int, value),
                compact,
            )
        } else {
            empty_buckets()
        }
    }

    /// The buckets that hold, window after window, what the conversion of
    /// each of the first `upto` windows gives for `value`.
    pub open spec fn gathered_buckets(
        &self,
        windows: Seq<Vec<Sample>>,
        upto: int,
        compact: bool,
        value: u64,
    ) -> Seq<Seq<u64>>
        decreases upto,
    {
        if upto <= 0 {
            empty_buckets()
        } else {
            let before = self.gathered_buckets(windows, upto - 1, compact, value);
            Seq::new(
                16,
                |r: int| before[r] + self.window_buckets(windows[upto - 1]@, compact, value)[r],
            )
        }
    }

    /// The resolutions at which the conversion of one of the first `upto`
    /// windows gives a cell for `value`.
    pub open spec fn gathered_marks(
        &self,
        windows: Seq<Vec<Sample>>,
        upto: int,
        compact: bool,
        value: u64,
    ) -> Seq<bool>
        decreases upto,
    {
        if upto <= 0 {
            no_marks()
        } else {
            let before = self.gathered_marks(windows, upto - 1, compact, value);
            Seq::new(
                16,
                |r: int|
                    before[r] || self.window_buckets(windows[upto - 1]@, compact, value)[r].len()
                        > 0,
            )
        }
    }

    /// A sample of one of the first `upto` windows belongs to the coverage
    /// of `value`.
    pub open spec fn gathered_has(&self, windows: Seq<Vec<Sample>>, upto: int, value: u64) -> bool {
        exists|k: int|
            0 <= k < upto && k < windows.len() && self.met(
                (#[trigger] windows[k])@,
                windows[k]@.len() as int,
                value,
            )
    }

    /// One of the first `upto` samples belongs to the coverage of `value`
    /// and has the cell `cell`.
    pub open spec fn picked(&self, samples: Seq<Sample>, upto: int, value: u64, cell: u64) -> bool {
        exists|j: int|
            0 <= j < upto && j < samples.len() && self.takes(#[trigger] samples[j], value)
                && samples[j].cell@ == cell
    }

    /// `above` is the cell of a sample that belongs to the coverage of
    /// `value`, or an ancestor of such a cell.
    pub open spec fn sample_below(&self, samples: Seq<Sample>, value: u64, above: u64) -> bool {
        exists|j: int|
            0 <= j < samples.len() && self.takes(#[trigger] samples[j], value) && covers_cell(
                above,
                samples[j].cell@,
            )
    }

    /// Every cell of `buckets` is the cell of a sample that belongs to the
    /// coverage of `value`, or an ancestor of such a cell.
    pub open spec fn rooted_in_samples(
        &self,
        buckets: Seq<Seq<u64>>,
        samples: Seq<Sample>,
        value: u64,
    ) -> bool {
        forall|r: int, i: int|
            0 <= r < buckets.len() && 0 <= i < buckets[r].len() ==> self.sample_below(
                samples,
                value,
                #[trigger] buckets[r][i],
            )
    }

    /// Every cell of `buckets` is the cell of a sample of one of the
    /// windows that belongs to the coverage of `value`, or an ancestor of
    /// such a cell.
    pub open spec fn rooted_in_windows(
        &self,
        buckets: Seq<Seq<u64>>,
        windows: Seq<Vec<Sample>>,
        value: u64,
    ) -> bool {
        forall|r: int, i: int|
            0 <= r < buckets.len() && 0 <= i < buckets[r].len() ==> exists|k: int|
                0 <= k < windows.len() && self.sample_below(
                    (#[trigger] windows[k])@,
                    value,
                    #[trigger] buckets[r][i],
                )
    }

    /// The picked buckets hold the cells of the samples that belong to the
    /// coverage of the value.
    pub proof fn lemma_picks_members(&self, samples: Seq<Sample>, upto: int, value: u64, x: u64)
        requires
            0 <= upto <= samples.len(),
        ensures
            buckets_contain(self.picks(samples, upto, value), x) <==> self.picked(
                samples,
                upto,
                value,
                x,
            ),
        decreases upto,
    {
        let all = self.picks(samples, upto, value);
        if upto > 0 {
            let before = self.picks(samples, upto - 1, value);
            let sample = samples[upto - 1];
            self.lemma_picks_members(samples, upto - 1, value, x);
            self.lemma_picks_sixteen(samples, upto - 1, value);
            lemma_resolution_in_range(sample.cell@);
            let at = spec_resolution(sample.cell@) as int;
            if self.picked(samples, upto, value, x) {
                let j = choose|j: int|
                    0 <= j < upto && j < samples.len() && self.takes(#[trigger] samples[j], value)
                        && samples[j].cell@ == x;
                if j < upto - 1 {
                    assert(self.picked(samples, upto - 1, value, x));
                    let (r, i) = choose|r: int, i: int|
                        0 <= r < before.len() && 0 <= i < before[r].len() && #[trigger] before[r][i]
                            == x;
                    assert(all[r][i] == x);
                } else {
                    assert(all[at][before[at].len() as int] == x);
                }
            }
            if buckets_contain(all, x) {
                let (r, i) = choose|r: int, i: int|
                    0 <= r < all.len() && 0 <= i < all[r].len() && #[trigger] all[r][i] == x;
                if self.takes(sample, value) && r == at && i == before[at].len() {
                    assert(samples[upto - 1].cell@ == x);
                } else {
                    assert(before[r][i] == x);
                    assert(buckets_contain(before, x));
                    let j = choose|j: int|
                        0 <= j < upto - 1 && j < samples.len() && self.takes(
                            #[trigger] samples[j],
                            value,
                        ) && samples[j].cell@ == x;
                    assert(self.takes(samples[j], value));
                }
            }
        } else {
            if buckets_contain(all, x) {
                let (r, i) = choose|r: int, i: int|
                    0 <= r < all.len() && 0 <= i < all[r].len() && #[trigger] all[r][i] == x;
            }
        }
    }

    /// Picked buckets and marks are sixteen each.
    pub proof fn lemma_picks_sixteen(&self, samples: Seq<Sample>, upto: int, value: u64)
        ensures
            self.picks(samples, upto, value).len() == 16,
            self.pick_marks(samples, upto, value).len() == 16,
        decreases upto,
    {
        if upto > 0 {
            self.lemma_picks_sixteen(samples, upto - 1, value);
            lemma_resolution_in_range(samples[upto - 1].cell@);
        }
    }

    /// The cells of one window, each put into the coverage of the value
    /// that the pixel under its centre holds. A cell whose pixel lies
    /// outside the raster or holds the nodata value is left out. Every
    /// coverage is finalized before it is handed back: it covers the cell
    /// of every sample that belongs to it, and holds only such cells or
    /// ancestors of them. To compact, words must be able to count the
    /// children of a cell (`can_count_children`).
    pub fn convert_array_window(&self, samples: &Vec<Sample>, compact: bool) -> (result: Result<CoverageMap, Error>)
        requires
            compact ==> words_count_children(),
        ensures
            result is Ok,
            result->Ok_0.well_formed(),
            forall|value: u64|
                #![trigger result->Ok_0.has(value)]
                result->Ok_0.has(value) <==> self.met(samples@, samples@.len() as int, value),
            forall|value: u64|
                #![trigger result->Ok_0.buckets_of(value)]
                result->Ok_0.buckets_of(value) == self.window_buckets(samples@, compact, value),
            forall|value: u64|
                #![trigger result->Ok_0.marks_of(value)]
                result->Ok_0.has(value) ==> result->Ok_0.marks_of(value) == spec_finalize_marks(
                    self.pick_marks(samples@, samples@.len() as int, value),
                    compact,
                ),
            forall|value: u64|
                #![trigger ancestor_free(result->Ok_0.buckets_of(value))]
                ancestor_free(result->Ok_0.buckets_of(value)),
            forall|value: u64, r: int|
                #![trigger result->Ok_0.buckets_of(value)[r]]
                compact && 0 <= r < 16 ==> no_complete_group(result->Ok_0.buckets_of(value)[r]),
            forall|value: u64|
                #![trigger result->Ok_0.buckets_of(value)]
                self.rooted_in_samples(result->Ok_0.buckets_of(value), samples@, value),
            forall|i: int, value: u64|
                #![trigger self.takes(samples@[i], value)]
                0 <= i < samples@.len() && self.takes(samples@[i], value) ==> buckets_cover(
                    result->Ok_0.buckets_of(value),
                    samples@[i].cell@,
                ),
    {
        let mut found = CoverageMap::new();
        let n = samples.len();
        let mut i: usize = 0;
        while i < n
            invariant
                i <= n,
                n == samples@.len(),
                found.well_formed(),
                forall|value: u64|
                    #![trigger found.has(value)]
                    found.has(value) <==> self.met(samples@, i as int, value),
                forall|value: u64|
                    #![trigger found.buckets_of(value)]
                    found.buckets_of(value) == self.picks(samples@, i as int, value),
                forall|value: u64|
                    #![trigger found.marks_of(value)]
                    found.marks_of(value) == self.pick_marks(samples@, i as int, value),
            decreases n - i,
        {
            let sample = samples[i];
            let ghost before = found;
            let at = self.arr.value_at(self.axis_order, sample.x, sample.y);
            let mut taken: Option<u64> = None;
            match at {
                Some(value) => {
                    let skip = match self.nodata_value {
                        Some(nodata) => nodata == value,
                        None => false,
                    };
                    if !skip {
                        taken = Some(value);
                        found.insert_cell(value, sample.cell);
                    }
                },
                None => {},
            }
            proof {
                assert(samples@[i as int] == sample);
                assert(forall|value: u64|
                    self.takes(sample, value) <==> taken == Some(value));
                assert forall|value: u64|
                    #![trigger found.has(value)]
                    found.has(value) <==> self.met(samples@, i + 1, value) by {
                    if self.met(samples@, i + 1, value) {
                        let j = choose|j: int|
                            0 <= j < i + 1 && j < samples@.len() && self.takes(
                                #[trigger] samples@[j],
                                value,
                            );
                        if j < i {
                            assert(self.met(samples@, i as int, value));
                        }
                    }
                    if self.met(samples@, i as int, value) {
                        let j = choose|j: int|
                            0 <= j < i && j < samples@.len() && self.takes(
                                #[trigger] samples@[j],
                                value,
                            );
                        assert(self.takes(samples@[j], value));
                    }
                    assert(before.has(value) <==> self.met(samples@, i as int, value));
                    if taken == Some(value) {
                        assert(self.takes(samples@[i as int], value));
                        if before.has(value) {
                        } else {
                            assert(found.values() == before.values().push(value));
                            assert(found.values()[before.values().len() as int] == value);
                        }
                    } else if taken is Some {
                        let other = taken->Some_0;
                        if before.has(other) {
                        } else {
                            assert(found.values() == before.values().push(other));
                            if found.has(value) {
                                let q = choose|q: int|
                                    0 <= q < found.values().len() && found.values()[q] == value;
                                assert(q < before.values().len());
                                assert(before.values()[q] == value);
                            }
                            if before.has(value) {
                                let q = choose|q: int|
                                    0 <= q < before.values().len() && before.values()[q] == value;
                                assert(found.values()[q] == value);
                            }
                        }
                    }
                }
                assert forall|value: u64|
                    #![trigger found.buckets_of(value)]
                    found.buckets_of(value) == self.picks(samples@, i + 1, value) by {
                    assert(before.buckets_of(value) == self.picks(samples@, i as int, value));
                }
                assert forall|value: u64|
                    #![trigger found.marks_of(value)]
                    found.marks_of(value) == self.pick_marks(samples@, i + 1, value) by {
                    assert(before.marks_of(value) == self.pick_marks(samples@, i as int, value));
                }
            }
            i = i + 1;
        }
        let ghost loose = found;
        let done = found.finalize(compact);
        proof {
            assert forall|value: u64|
                #![trigger found.has(value)]
                found.has(value) <==> self.met(samples@, n as int, value) by {
                assert(loose.has(value) <==> self.met(samples@, n as int, value));
            }
            assert forall|value: u64|
                #![trigger found.buckets_of(value)]
                found.buckets_of(value) == self.window_buckets(samples@, compact, value) by {
                assert(loose.has(value) <==> self.met(samples@, n as int, value));
                assert(loose.buckets_of(value) == self.picks(samples@, n as int, value));
                assert(loose.marks_of(value) == self.pick_marks(samples@, n as int, value));
                assert(found.has(value) == loose.has(value));
            }
            assert forall|value: u64|
                #![trigger found.marks_of(value)]
                found.has(value) implies found.marks_of(value) == spec_finalize_marks(
                self.pick_marks(samples@, n as int, value),
                compact,
            ) by {
                assert(loose.has(value));
                assert(loose.marks_of(value) == self.pick_marks(samples@, n as int, value));
            }
            assert forall|value: u64|
                #![trigger found.buckets_of(value)]
                self.rooted_in_samples(found.buckets_of(value), samples@, value) by {
                let now = found.buckets_of(value);
                let was = loose.buckets_of(value);
                assert(was == self.picks(samples@, n as int, value));
                assert(buckets_rooted_in(now, was));
                assert forall|r: int, i: int|
                    0 <= r < now.len() && 0 <= i < now[r].len() implies self.sample_below(
                    samples@,
                    value,
                    #[trigger] now[r][i],
                ) by {
                    assert(buckets_hold_below(was, now[r][i]));
                    let (r1, i1) = choose|r1: int, i1: int|
                        0 <= r1 < was.len() && 0 <= i1 < was[r1].len() && covers_cell(
                            now[r][i],
                            #[trigger] was[r1][i1],
                        );
                    assert(buckets_contain(was, was[r1][i1]));
                    self.lemma_picks_members(samples@, n as int, value, was[r1][i1]);
                    let j = choose|j: int|
                        0 <= j < n && j < samples@.len() && self.takes(
                            #[trigger] samples@[j],
                            value,
                        ) && samples@[j].cell@ == was[r1][i1];
                    assert(self.takes(samples@[j], value) && covers_cell(
                        now[r][i],
                        samples@[j].cell@,
                    ));
                }
            }
            assert forall|i: int, value: u64|
                #![trigger self.takes(samples@[i], value)]
                0 <= i < samples@.len() && self.takes(samples@[i], value) implies buckets_cover(
                found.buckets_of(value),
                samples@[i].cell@,
            ) by {
                let was = loose.buckets_of(value);
                let x = samples@[i].cell@;
                assert(was == self.picks(samples@, n as int, value));
                assert(self.picked(samples@, n as int, value, x));
                self.lemma_picks_members(samples@, n as int, value, x);
                let (r1, i1) = choose|r1: int, i1: int|
                    0 <= r1 < was.len() && 0 <= i1 < was[r1].len() && #[trigger] was[r1][i1] == x;
                assert(covers_cell(was[r1][i1], x));
                assert(buckets_cover(was, x));
                assert(buckets_cover(found.buckets_of(value), x));
            }
        }
        match done {
            Ok(_) => Ok(found),
            Err(refused) => Err(refused),
        }
    }

    /// Where each of the first `upto` maps is what the conversion of its
    /// window gives, the maps merge into what the windows gather.
    proof fn lemma_merged_is_gathered(
        &self,
        maps: Seq<CoverageMap>,
        windows: Seq<Vec<Sample>>,
        upto: int,
        compact: bool,
        value: u64,
    )
        requires
            0 <= upto <= maps.len(),
            upto <= windows.len(),
            forall|k: int|
                0 <= k < upto ==> (#[trigger] maps[k]).buckets_of(value) == self.window_buckets(
                    windows[k]@,
                    compact,
                    value,
                ),
        ensures
            merged_buckets(maps, upto, value) == self.gathered_buckets(
                windows,
                upto,
                compact,
                value,
            ),
            merged_marks(maps, upto, value) == self.gathered_marks(windows, upto, compact, value),
        decreases upto,
    {
        if upto > 0 {
            self.lemma_merged_is_gathered(maps, windows, upto - 1, compact, value);
            assert(maps[upto - 1].buckets_of(value) == self.window_buckets(
                windows[upto - 1]@,
                compact,
                value,
            ));
            assert(merged_buckets(maps, upto, value) =~= self.gathered_buckets(
                windows,
                upto,
                compact,
                value,
            ));
            assert(merged_marks(maps, upto, value) =~= self.gathered_marks(
                windows,
                upto,
                compact,
                value,
            ));
        }
    }

    /// Converts the raster: every window's cells are put into the coverage
    /// of the value under their centre and finalized, then the coverages of
    /// all windows are brought together value by value and finalized once
    /// more. `windows` holds, for each window, the cells that tile it with
    /// the pixel under the centre of each.
    ///
    /// A value has a coverage exactly when a cell's centre lies on a pixel
    /// that holds it and is neither outside the raster nor nodata. Its
    /// coverage covers every such cell, holds only such cells or ancestors
    /// of them, and no cell inside another. To compact, words must be able
    /// to count the children of a cell (`can_count_children`).
    pub fn to_h3(&self, windows: &Vec<Vec<Sample>>, compact: bool) -> (result: Result<CoverageMap, Error>)
        requires
            compact ==> words_count_children(),
        ensures
            result is Ok,
            result->Ok_0.well_formed(),
            forall|value: u64|
                #![trigger result->Ok_0.has(value)]
                result->Ok_0.has(value) <==> self.gathered_has(
                    windows@,
                    windows@.len() as int,
                    value,
                ),
            forall|value: u64|
                #![trigger result->Ok_0.buckets_of(value)]
                result->Ok_0.has(value) ==> result->Ok_0.buckets_of(value) == spec_finalize(
                    self.gathered_buckets(windows@, windows@.len() as int, compact, value),
                    self.gathered_marks(windows@, windows@.len() as int, compact, value),
                    compact,
                ),
            forall|value: u64|
                #![trigger ancestor_free(result->Ok_0.buckets_of(value))]
                ancestor_free(result->Ok_0.buckets_of(value)),
            forall|value: u64, r: int|
                #![trigger result->Ok_0.buckets_of(value)[r]]
                compact && 0 <= r < 16 ==> no_complete_group(result->Ok_0.buckets_of(value)[r]),
            forall|value: u64|
                #![trigger result->Ok_0.buckets_of(value)]
                self.rooted_in_windows(result->Ok_0.buckets_of(value), windows@, value),
            forall|k: int, i: int, value: u64|
                #![trigger self.takes(windows@[k]@[i], value)]
                0 <= k < windows@.len() && 0 <= i < windows@[k]@.len() && self.takes(
                    windows@[k]@[i],
                    value,
                ) ==> buckets_cover(result->Ok_0.buckets_of(value), windows@[k]@[i].cell@),
    {
        let n = windows.len();
        let mut maps: Vec<CoverageMap> = Vec::new();
        let mut k: usize = 0;
        while k < n
            invariant
                k <= n,
                n == windows@.len(),
                maps@.len() == k,
                compact ==> words_count_children(),
                forall|j: int, value: u64|
                    #![trigger maps@[j].has(value)]
                    0 <= j < k ==> (maps@[j].has(value) <==> self.met(
                        windows@[j]@,
                        windows@[j]@.len() as int,
                        value,
                    )),
                forall|j: int, value: u64|
                    #![trigger maps@[j].buckets_of(value)]
                    0 <= j < k ==> maps@[j].buckets_of(value) == self.window_buckets(
                        windows@[j]@,
                        compact,
                        value,
                    ),
                forall|j: int, value: u64|
                    #![trigger maps@[j].buckets_of(value)]
                    0 <= j < k ==> self.rooted_in_samples(
                        maps@[j].buckets_of(value),
                        windows@[j]@,
                        value,
                    ),
                forall|j: int, i: int, value: u64|
                    #![trigger self.takes(windows@[j]@[i], value)]
                    0 <= j < k && 0 <= i < windows@[j]@.len() && self.takes(
                        windows@[j]@[i],
                        value,
                    ) ==> buckets_cover(maps@[j].buckets_of(value), windows@[j]@[i].cell@),
            decreases n - k,
        {
            let ghost before = maps@;
            let one = self.convert_array_window(&windows[k], compact);
            match one {
                Ok(found) => {
                    maps.push(found);
                    proof {
                        assert(forall|j: int| 0 <= j < k ==> maps@[j] == before[j]);
                        assert(maps@[k as int] == found);
                    }
                },
                Err(refused) => {
                    return Err(refused);
                },
            }
            k = k + 1;
        }
        let ghost chunked = maps@;
        let all = combine(maps, compact);
        proof {
            assert forall|value: u64|
                merged_has(chunked, n as int, value) <==> self.gathered_has(
                    windows@,
                    n as int,
                    value,
                ) by {
                if merged_has(chunked, n as int, value) {
                    let j = choose|j: int|
                        0 <= j < n && j < chunked.len() && (#[trigger] chunked[j]).has(value);
                    assert(chunked[j].has(value));
                    assert(self.met(windows@[j]@, windows@[j]@.len() as int, value));
                }
                if self.gathered_has(windows@, n as int, value) {
                    let j = choose|j: int|
                        0 <= j < n && j < windows@.len() && self.met(
                            (#[trigger] windows@[j])@,
                            windows@[j]@.len() as int,
                            value,
                        );
                    assert(chunked[j].has(value));
                }
            }
            assert forall|value: u64|
                #![trigger all->Ok_0.buckets_of(value)]
                all->Ok_0.has(value) implies all->Ok_0.buckets_of(value) == spec_finalize(
                self.gathered_buckets(windows@, n as int, compact, value),
                self.gathered_marks(windows@, n as int, compact, value),
                compact,
            ) by {
                assert forall|j: int| 0 <= j < n implies (#[trigger] chunked[j]).buckets_of(value)
                    == self.window_buckets(windows@[j]@, compact, value) by {}
                self.lemma_merged_is_gathered(chunked, windows@, n as int, compact, value);
            }
            assert forall|value: u64|
                #![trigger all->Ok_0.buckets_of(value)]
                self.rooted_in_windows(all->Ok_0.buckets_of(value), windows@, value) by {
                let now = all->Ok_0.buckets_of(value);
                assert(rooted_in_maps(now, chunked, value));
                assert forall|r: int, i: int|
                    0 <= r < now.len() && 0 <= i < now[r].len() implies exists|j: int|
                    0 <= j < windows@.len() && self.sample_below(
                        (#[trigger] windows@[j])@,
                        value,
                        #[trigger] now[r][i],
                    ) by {
                    let j = choose|j: int|
                        0 <= j < chunked.len() && buckets_hold_below(
                            (#[trigger] chunked[j]).buckets_of(value),
                            now[r][i],
                        );
                    let mine = chunked[j].buckets_of(value);
                    let (r1, i1) = choose|r1: int, i1: int|
                        0 <= r1 < mine.len() && 0 <= i1 < mine[r1].len() && covers_cell(
                            now[r][i],
                            #[trigger] mine[r1][i1],
                        );
                    assert(self.rooted_in_samples(mine, windows@[j]@, value));
                    assert(self.sample_below(windows@[j]@, value, mine[r1][i1]));
                    let m = choose|m: int|
                        0 <= m < windows@[j]@.len() && self.takes(
                            #[trigger] windows@[j]@[m],
                            value,
                        ) && covers_cell(mine[r1][i1], windows@[j]@[m].cell@);
                    lemma_covers_transitive(now[r][i], mine[r1][i1], windows@[j]@[m].cell@);
                    assert(self.sample_below(windows@[j]@, value, now[r][i]));
                }
            }
            assert forall|j: int, i: int, value: u64|
                #![trigger self.takes(windows@[j]@[i], value)]
                0 <= j < windows@.len() && 0 <= i < windows@[j]@.len() && self.takes(
                    windows@[j]@[i],
                    value,
                ) implies buckets_cover(all->Ok_0.buckets_of(value), windows@[j]@[i].cell@) by {
                assert(buckets_cover(chunked[j].buckets_of(value), windows@[j]@[i].cell@));
            }
        }
        all
    }

    /// A converter for `arr`, whose pixels with the value `nodata_value`
    /// hold no data.
    pub fn new(arr: &'a Raster<'a>, nodata_value: Option<u64>, axis_order: AxisOrder) -> (converter: H3Converter<'a>)
        ensures
            converter.raster() == *arr,
            converter.nodata() == nodata_value,
            converter.order() == axis_order,
    {
        H3Converter { arr, nodata_value, axis_order }
    }

    /// The resolution whose cells come closest to the size of a pixel of
    /// this raster, as `search_mode` finds it; none where the raster has no
    /// pixel.
    pub fn nearest_h3_resolution(&self, search_mode: ResolutionSearchMode, areas: &AreaOrder) -> (result: Result<u8, Error>)
        ensures
            (result is Err) == (self.x_size() == 0 || self.y_size() == 0),
            result is Err ==> result->Err_0 is EmptyArray,
            result is Ok ==> result->Ok_0 <= 15 && is_selected(
                search_mode,
                *areas,
                result->Ok_0 as int,
            ),
    {
        let shape = self.arr.shape();
        search_mode.nearest_h3_resolution([shape.0, shape.1], areas)
    }

    /// The regular grid of windows with the edge `rect_size` over the whole
    /// raster.
    pub fn rects_with_data_without_nodata(&self, rect_size: usize) -> (rects: Vec<PixelRect>)
        requires
            rect_size > 0,
        ensures
            rects_view(rects@) == grid_tiles(
                self.x_size(),
                self.y_size(),
                rect_size as int,
                tiles_along(self.x_size(), rect_size as int),
            ),
    {
        let extent = self.arr.extent(self.axis_order);
        grid_rects(extent.0, extent.1, rect_size)
    }

    /// The windows of strip `chunk_i` of the raster, where strips span
    /// `rect_size` columns: the rectangles that hold data other than
    /// `nodata` in the strip, each cut into windows of at most `rect_size`
    /// rows.
    pub fn chunk_rects_with_data_nodata(&self, rect_size: usize, nodata: u64, chunk_i: usize) -> (rects: Vec<PixelRect>)
        requires
            rect_size > 0,
            chunk_i < tiles_along(self.x_size(), rect_size as int),
        ensures
            rects_view(rects@) == chunk_windows(
                self.data(nodata),
                self.x_size(),
                self.y_size(),
                rect_size as int,
                chunk_i as int,
            ),
    {
        let extent = self.arr.extent(self.axis_order);
        let ghost data = self.data(nodata);
        proof {
            lemma_tile_start(extent.0 as int, rect_size as int, chunk_i as int);
            assert((chunk_i + 1) * rect_size == chunk_i * rect_size + rect_size) by (nonlinear_arith);
        }
        let x_from = chunk_i * rect_size;
        let x_to = if extent.0 - x_from <= rect_size {
            extent.0
        } else {
            x_from + rect_size
        };
        let found = find_boxes_between(self.arr, nodata, self.axis_order, x_from, x_to);
        let ghost boxes = rects_view(found@);
        let mut rects: Vec<PixelRect> = Vec::new();
        assert(rects_view(rects@) =~= Seq::<(int, int, int, int)>::empty());
        let mut m: usize = 0;
        while m < found.len()
            invariant
                m <= found.len(),
                rect_size > 0,
                boxes == rects_view(found@),
                extent.0 <= isize::MAX,
                extent.1 <= isize::MAX,
                forall|k: int|
                    0 <= k < found@.len() ==> rect_within(
                        #[trigger] found@[k]@,
                        x_from as int,
                        x_to as int,
                        extent.1 as int,
                    ),
                x_to <= extent.0,
                rects_view(rects@) == tiles_of_boxes(boxes, rect_size as int, m as int),
            decreases found.len() - m,
        {
            let one = found[m];
            proof {
                assert(rect_within(found@[m as int]@, x_from as int, x_to as int, extent.1 as int));
                assert(boxes[m as int] == one@);
            }
            push_box_rects(one, rect_size, &mut rects);
            m = m + 1;
        }
        rects
    }

    /// The windows over the data of the raster: strip after strip of
    /// `rect_size` columns, the windows of `chunk_rects_with_data_nodata`.
    /// Every pixel that holds a value other than `nodata` lies in one of
    /// them.
    pub fn rects_with_data_with_nodata(&self, rect_size: usize, nodata: u64) -> (rects: Vec<PixelRect>)
        requires
            rect_size > 0,
        ensures
            rects_view(rects@) == sparse_windows(
                self.data(nodata),
                self.x_size(),
                self.y_size(),
                rect_size as int,
                tiles_along(self.x_size(), rect_size as int),
            ),
    {
        let extent = self.arr.extent(self.axis_order);
        let count = count_tiles(extent.0, rect_size);
        let ghost data = self.data(nodata);
        let mut rects: Vec<PixelRect> = Vec::new();
        assert(rects_view(rects@) =~= Seq::<(int, int, int, int)>::empty());
        let mut i: usize = 0;
        while i < count
            invariant
                i <= count,
                rect_size > 0,
                count == tiles_along(self.x_size(), rect_size as int),
                data == self.data(nodata),
                rects_view(rects@) == sparse_windows(
                    data,
                    self.x_size(),
                    self.y_size(),
                    rect_size as int,
                    i as int,
                ),
            decreases count - i,
        {
            let mut more = self.chunk_rects_with_data_nodata(rect_size, nodata, i);
            let ghost had = rects@;
            let ghost got = more@;
            rects.append(&mut more);
            proof {
                assert(rects_view(had + got) =~= rects_view(had) + rects_view(got));
            }
            i = i + 1;
        }
        rects
    }

    /// The windows to convert, with the edge `rect_size`: those over the
    /// data where a nodata value is set, the regular grid over the whole
    /// raster where none is. Every pixel to convert lies in one of them.
    pub fn rects_with_data(&self, rect_size: usize) -> (rects: Vec<PixelRect>)
        requires
            rect_size > 0,
        ensures
            rects_view(rects@) == self.spec_rects(rect_size as int),
            forall|x: int, y: int|
                self.wanted(x, y) ==> exists|m: int|
                    0 <= m < rects@.len() && window_holds(#[trigger] rects@[m]@, x, y),
    {
        let rects = match self.nodata_value {
            Some(nodata) => self.rects_with_data_with_nodata(rect_size, nodata),
            None => self.rects_with_data_without_nodata(rect_size),
        };
        proof {
            let all = self.spec_rects(rect_size as int);
            assert forall|x: int, y: int| self.wanted(x, y) implies exists|m: int|
                0 <= m < rects@.len() && window_holds(#[trigger] rects@[m]@, x, y) by {
                match self.nodata_value {
                    Some(nodata) => {
                        assert(self.data(nodata)(x, y));
                        lemma_sparse_cover(
                            self.data(nodata),
                            self.x_size(),
                            self.y_size(),
                            rect_size as int,
                            x,
                            y,
                        );
                    },
                    None => {
                        lemma_grid_cover(self.x_size(), self.y_size(), rect_size as int, x, y);
                    },
                }
                let m = choose|m: int| 0 <= m < all.len() && window_holds(#[trigger] all[m], x, y);
                assert(rects_view(rects@)[m] == rects@[m]@);
            }
        }
        rects
    }

    /// The edge length of the windows that this raster is converted in: a
    /// tenth of its extent along x, but at least 10 and at most 100.
    pub fn window_edge(&self) -> (edge: usize)
        ensures
            edge == spec_chunk_size(self.x_size()),
            10 <= edge <= 100,
    {
        let extent = self.arr.extent(self.axis_order);
        chunk_size(extent.0)
    }
}

} // verus!
