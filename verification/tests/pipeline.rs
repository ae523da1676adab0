use geo::{AffineOps, AffineTransform};
use geo_types::{Coord, Point, Rect};
use h3o::geom::{ContainmentMode, TilerBuilder};
use h3o::{LatLng, Resolution};
use rasterh3::array::Sample;
use rasterh3::reduce::combine;
use rasterh3::raster::Raster;
use rasterh3::resolution::{require_pixels, AreaOrder};
use rasterh3::sparse::PixelRect;
use rasterh3::{AxisOrder, Cell, CoverageMap, Error, H3Converter, ResolutionSearchMode};

fn from_gdal(t: &[f64; 6]) -> AffineTransform<f64> {
    AffineTransform::new(t[1], t[2], t[0], t[4], t[5], t[3])
}

fn from_rasterio(t: &[f64; 6]) -> AffineTransform<f64> {
    AffineTransform::new(t[0], t[1], t[2], t[3], t[4], t[5])
}

fn area_on_sphere_m2(rect: &Rect<f64>) -> f64 {
    let ring = rect.to_polygon().exterior().clone();
    ring.0
        .windows(2)
        .map(|coords| {
            (coords[1].x - coords[0].x).to_radians()
                * (2.0 + coords[0].y.to_radians().sin() + coords[1].y.to_radians().sin())
        })
        .sum::<f64>()
        .abs()
        * 6_378_137_f64.powi(2)
        / 2.0
}

fn area_order(shape: [usize; 2], transform: &AffineTransform<f64>, axis_order: AxisOrder) -> AreaOrder {
    let bbox_array = Rect::new(
        (0.0_f64, 0.0_f64),
        (
            (shape[axis_order.x_axis()] - 1) as f64,
            (shape[axis_order.y_axis()] - 1) as f64,
        ),
    )
    .affine_transform(transform);
    let area_pixel = area_on_sphere_m2(&bbox_array)
        / (shape[axis_order.x_axis()] * shape[axis_order.y_axis()]) as f64;
    let center_of_array: LatLng = bbox_array.center().try_into().expect("a coordinate");
    let mut areas = AreaOrder {
        cell_fits: [false; 16],
        diff_grew: [false; 16],
    };
    let mut before: Option<f64> = None;
    for h3_res in Resolution::range(Resolution::Zero, Resolution::Fifteen) {
        let at = usize::from(h3_res);
        let area_h3_index = center_of_array.to_cell(h3_res).area_m2();
        areas.cell_fits[at] = area_h3_index <= area_pixel;
        let difference = (area_h3_index - area_pixel).abs();
        if let Some(old) = before {
            areas.diff_grew[at] = old < difference;
        }
        before = Some(difference);
    }
    areas
}

fn normalize_longitude(longitude: f64) -> f64 {
    ((longitude + 540.0f64) % 360.0f64) - 180.0f64
}

fn split_rect_at_antimeridian(rect: Rect) -> Vec<(Rect, f64)> {
    let min_x_normalized = normalize_longitude(rect.min().x);
    let max_x_normalized = normalize_longitude(rect.max().x);
    if min_x_normalized < max_x_normalized {
        vec![(rect, 0.0)]
    } else {
        vec![
            (
                Rect::new(
                    Coord { x: -180.0, y: rect.min().y },
                    Coord { x: max_x_normalized, y: rect.max().y },
                ),
                max_x_normalized - rect.max().x,
            ),
            (
                Rect::new(
                    Coord { x: min_x_normalized, y: rect.min().y },
                    Coord { x: 180.0, y: rect.max().y },
                ),
                min_x_normalized - rect.min().x,
            ),
        ]
    }
}

fn window_samples(
    window: PixelRect,
    transform: &AffineTransform<f64>,
    inverse: &AffineTransform<f64>,
    resolution: Resolution,
) -> Vec<Sample> {
    let window_box = Rect::new(
        Coord { x: window.min_x as f64, y: window.min_y as f64 },
        Coord { x: window.max_x as f64, y: window.max_y as f64 },
    )
    .affine_transform(transform);
    let mut samples = Vec::new();
    for (piece, offset) in split_rect_at_antimeridian(window_box) {
        let mut tiler = TilerBuilder::new(resolution)
            .containment_mode(ContainmentMode::ContainsCentroid)
            .build();
        tiler.add(piece.into()).expect("a shape to tile");
        for cell in tiler.into_coverage() {
            let centroid: Coord = LatLng::from(cell).into();
            let transformed =
                Point::new(centroid.x + offset, centroid.y).affine_transform(inverse);
            samples.push(Sample {
                cell: Cell::from_bits(u64::from(cell)).expect("a cell index"),
                x: transformed.x().floor() as usize,
                y: transformed.y().floor() as usize,
            });
        }
    }
    samples
}

fn convert(
    converter: &H3Converter,
    transform: &AffineTransform<f64>,
    resolution: Resolution,
    compact: bool,
) -> CoverageMap {
    let inverse = transform.inverse().expect("an inverse");
    let windows: Vec<Vec<Sample>> = converter
        .rects_with_data(converter.window_edge())
        .into_iter()
        .map(|window| window_samples(window, transform, &inverse, resolution))
        .collect();
    converter.to_h3(&windows, compact).expect("a conversion")
}

fn bits(cells: Vec<Cell>) -> Vec<u64> {
    cells.into_iter().map(|cell| cell.bits()).collect()
}

#[test]
fn preserve_nan_values() {
    let arr: [u64; 4] = [
        u64::from(f32::NAN.to_bits()),
        u64::from(1.0_f32.to_bits()),
        u64::from(f32::NAN.to_bits()),
        u64::from(1.0_f32.to_bits()),
    ];
    let transform = from_gdal(&[11.0, 1.0, 0.0, 10.0, 1.2, 0.2]);

    let view = Raster::new(2, 2, &arr).expect("a grid of 2 by 2");
    let converter = H3Converter::new(&view, None, AxisOrder::XY);
    let areas = area_order([2, 2], &transform, AxisOrder::XY);
    let h3_resolution = converter
        .nearest_h3_resolution(ResolutionSearchMode::SmallerThanPixel, &areas)
        .unwrap();
    let cell_map = convert(
        &converter,
        &transform,
        Resolution::try_from(h3_resolution).expect("a resolution"),
        false,
    );
    assert_eq!(cell_map.len(), 2);
    assert!(cell_map.contains_key(u64::from(f32::NAN.to_bits())));
    assert!(cell_map.contains_key(u64::from(1.0_f32.to_bits())));
}

#[test]
fn test_nearest_h3_resolution() {
    // transform of a raster of 2000 by 2000 pixels in the south of Germany
    let gt = from_rasterio(&[
        0.0011965049999999992,
        0.0,
        8.11377,
        0.0,
        -0.001215135,
        49.40792,
    ]);
    let areas = area_order([2000_usize, 2000_usize], &gt, AxisOrder::YX);
    let h3_res1 = ResolutionSearchMode::MinDiff
        .nearest_h3_resolution([2000_usize, 2000_usize], &areas)
        .unwrap();
    assert_eq!(h3_res1, u8::from(Resolution::Ten));

    let h3_res2 = ResolutionSearchMode::SmallerThanPixel
        .nearest_h3_resolution([2000_usize, 2000_usize], &areas)
        .unwrap();
    assert_eq!(h3_res2, u8::from(Resolution::Eleven));
}

#[test]
fn a_raster_without_pixels_has_no_resolution() {
    let areas = AreaOrder {
        cell_fits: [true; 16],
        diff_grew: [true; 16],
    };
    assert!(matches!(
        ResolutionSearchMode::MinDiff.nearest_h3_resolution([0, 5], &areas),
        Err(Error::EmptyArray)
    ));
    assert!(matches!(
        ResolutionSearchMode::SmallerThanPixel.nearest_h3_resolution([5, 0], &areas),
        Err(Error::EmptyArray)
    ));
    assert!(matches!(require_pixels([0, 0]), Err(Error::EmptyArray)));
    assert!(require_pixels([1, 1]).is_ok());
    let nothing: [u64; 0] = [];
    let view = Raster::new(0, 3, &nothing).expect("a grid without rows");
    let converter = H3Converter::new(&view, None, AxisOrder::XY);
    assert!(matches!(
        converter.nearest_h3_resolution(ResolutionSearchMode::MinDiff, &areas),
        Err(Error::EmptyArray)
    ));
}

#[test]
fn smaller_than_pixel_takes_the_first_cell_that_fits() {
    let mut areas = AreaOrder {
        cell_fits: [false; 16],
        diff_grew: [true; 16],
    };
    areas.cell_fits[7] = true;
    areas.cell_fits[9] = true;
    assert_eq!(
        ResolutionSearchMode::SmallerThanPixel.nearest_h3_resolution([3, 3], &areas).unwrap(),
        7
    );
    areas.cell_fits[0] = true;
    assert_eq!(
        ResolutionSearchMode::SmallerThanPixel.nearest_h3_resolution([3, 3], &areas).unwrap(),
        0
    );
    areas.cell_fits = [false; 16];
    areas.cell_fits[15] = true;
    assert_eq!(
        ResolutionSearchMode::SmallerThanPixel.nearest_h3_resolution([3, 3], &areas).unwrap(),
        15
    );
    // no cell fits: the search ends at the last resolution
    areas.cell_fits = [false; 16];
    assert_eq!(
        ResolutionSearchMode::SmallerThanPixel.nearest_h3_resolution([3, 3], &areas).unwrap(),
        15
    );
}

#[test]
fn min_diff_stops_where_the_difference_first_grows() {
    let mut areas = AreaOrder {
        cell_fits: [true; 16],
        diff_grew: [false; 16],
    };
    areas.diff_grew[11] = true;
    areas.diff_grew[13] = true;
    assert_eq!(
        ResolutionSearchMode::MinDiff.nearest_h3_resolution([3, 3], &areas).unwrap(),
        10
    );
    // resolution 0 has none before it: what stands at place 0 is not looked at
    areas.diff_grew[0] = true;
    assert_eq!(
        ResolutionSearchMode::MinDiff.nearest_h3_resolution([3, 3], &areas).unwrap(),
        10
    );
    // resolution 0 is the best already
    areas.diff_grew[1] = true;
    assert_eq!(
        ResolutionSearchMode::MinDiff.nearest_h3_resolution([3, 3], &areas).unwrap(),
        0
    );
    areas.diff_grew = [false; 16];
    areas.diff_grew[15] = true;
    assert_eq!(
        ResolutionSearchMode::MinDiff.nearest_h3_resolution([3, 3], &areas).unwrap(),
        14
    );
    // the difference never grows: the search ends at the last resolution
    areas.diff_grew = [false; 16];
    assert_eq!(
        ResolutionSearchMode::MinDiff.nearest_h3_resolution([3, 3], &areas).unwrap(),
        15
    );
}

fn cell_at(lat: f64, lng: f64, resolution: Resolution) -> Cell {
    let index = LatLng::new(lat, lng).expect("a coordinate").to_cell(resolution);
    Cell::from_bits(u64::from(index)).expect("a cell index")
}

#[test]
fn window_conversion_sorts_cells_by_the_value_under_them() {
    let values: [u64; 6] = [7, 7, 0, 8, 0, 7];
    let view = Raster::new(2, 3, &values).expect("a grid of 2 by 3");
    let converter = H3Converter::new(&view, Some(0), AxisOrder::YX);
    let a = cell_at(10.0, 10.0, Resolution::Five);
    let b = cell_at(20.0, 20.0, Resolution::Five);
    let c = cell_at(30.0, 30.0, Resolution::Six);
    let d = cell_at(40.0, 40.0, Resolution::Five);
    let samples = vec![
        Sample { cell: b, x: 1, y: 0 },
        Sample { cell: a, x: 0, y: 0 },
        // under nodata
        Sample { cell: d, x: 2, y: 0 },
        Sample { cell: c, x: 0, y: 1 },
        // outside of the raster
        Sample { cell: d, x: 3, y: 0 },
        Sample { cell: d, x: 0, y: 2 },
        Sample { cell: a, x: 2, y: 1 },
        Sample { cell: b, x: 1, y: 0 },
    ];
    let found = converter.convert_array_window(&samples, false).expect("a conversion");
    assert_eq!(found.len(), 2);
    assert_eq!(found.value_at(0), 7);
    assert_eq!(found.value_at(1), 8);
    assert!(found.contains_key(7));
    assert!(found.contains_key(8));
    assert!(!found.contains_key(0));
    assert_eq!(found.position(8), Some(1));
    assert_eq!(found.position(9), None);
    let mut expected = vec![a.bits(), b.bits()];
    expected.sort();
    assert_eq!(bits(found.get(7).expect("a coverage").compacted_iter()), expected);
    assert_eq!(bits(found.coverage_at(1).compacted_iter()), vec![c.bits()]);
    assert!(found.get(0).is_none());
}

#[test]
fn window_conversion_reads_pixels_by_the_axis_order() {
    let values: [u64; 6] = [7, 7, 0, 8, 0, 7];
    let view = Raster::new(2, 3, &values).expect("a grid of 2 by 3");
    let converter = H3Converter::new(&view, None, AxisOrder::XY);
    let a = cell_at(10.0, 10.0, Resolution::Five);
    let samples = vec![Sample { cell: a, x: 1, y: 0 }, Sample { cell: a, x: 0, y: 2 }];
    let found = converter.convert_array_window(&samples, true).expect("a conversion");
    assert_eq!(found.len(), 2);
    assert_eq!(found.value_at(0), 8);
    assert_eq!(found.value_at(1), 0);
}

#[test]
fn windows_are_combined_value_by_value() {
    let values: [u64; 4] = [1, 2, 1, 2];
    let view = Raster::new(2, 2, &values).expect("a grid of 2 by 2");
    let converter = H3Converter::new(&view, None, AxisOrder::XY);
    let parent = LatLng::new(48.19, 9.31).expect("a coordinate").to_cell(Resolution::Five);
    let kids: Vec<Cell> = parent
        .children(Resolution::Six)
        .map(|kid| Cell::from_bits(u64::from(kid)).expect("a cell index"))
        .collect();
    let other = cell_at(-33.9, 151.2, Resolution::Six);
    let first: Vec<Sample> = kids
        .iter()
        .take(4)
        .map(|kid| Sample { cell: *kid, x: 0, y: 0 })
        .chain([Sample { cell: other, x: 0, y: 1 }])
        .collect();
    let second: Vec<Sample> = kids
        .iter()
        .skip(3)
        .map(|kid| Sample { cell: *kid, x: 1, y: 0 })
        .collect();
    let windows = vec![first, Vec::new(), second];

    let plain = converter.to_h3(&windows, false).expect("a conversion");
    assert_eq!(plain.len(), 2);
    assert_eq!(
        bits(plain.get(1).expect("a coverage").compacted_iter()),
        kids.iter().map(|kid| kid.bits()).collect::<Vec<u64>>()
    );
    assert_eq!(bits(plain.get(2).expect("a coverage").compacted_iter()), vec![other.bits()]);

    let compacted = converter.to_h3(&windows, true).expect("a conversion");
    assert_eq!(compacted.len(), 2);
    assert_eq!(
        bits(compacted.get(1).expect("a coverage").compacted_iter()),
        vec![u64::from(parent)]
    );
    assert_eq!(
        bits(compacted.get(2).expect("a coverage").compacted_iter()),
        vec![other.bits()]
    );

    let maps = vec![
        converter.convert_array_window(&windows[0], true).expect("a conversion"),
        converter.convert_array_window(&windows[2], true).expect("a conversion"),
    ];
    let combined = combine(maps, true).expect("a combination");
    let entries = combined.into_entries();
    assert_eq!(entries.len(), 2);
    assert_eq!(entries[0].0, 1);
    assert_eq!(bits(entries[0].1.compacted_iter()), vec![u64::from(parent)]);
}

#[test]
fn coverage_map_keeps_one_coverage_for_each_value() {
    let mut map = CoverageMap::new();
    assert!(map.is_empty());
    let a = cell_at(10.0, 10.0, Resolution::Five);
    let b = cell_at(20.0, 20.0, Resolution::Seven);
    map.insert_cell(40, a);
    map.insert_cell(30, b);
    map.insert_cell(40, b);
    assert_eq!(map.len(), 2);
    assert!(!map.is_empty());
    assert_eq!(map.value_at(0), 40);
    assert_eq!(map.value_at(1), 30);
    assert_eq!(bits(map.get(40).expect("a coverage").compacted_iter()), vec![a.bits(), b.bits()]);

    let mut other = CoverageMap::new();
    other.insert_cell(50, a);
    other.insert_cell(30, a);
    map.absorb(other);
    assert_eq!(map.len(), 3);
    assert_eq!(map.value_at(2), 50);
    assert_eq!(bits(map.get(30).expect("a coverage").compacted_iter()), vec![a.bits(), b.bits()]);
    map.insert_cell(30, b);
    map.finalize(false).expect("finalized coverages");
    assert_eq!(bits(map.get(30).expect("a coverage").compacted_iter()), vec![a.bits(), b.bits()]);
    assert_eq!(map.get(30).expect("a coverage").len(), 2);
}

#[test]
fn conversion_of_a_small_raster() {
    // two rows of three pixels, one degree each, around 10 degrees east and north
    let values: [u64; 6] = [1, 1, 2, 0, 2, 2];
    let view = Raster::new(2, 3, &values).expect("a grid of 2 by 3");
    let transform = from_gdal(&[10.0, 1.0, 0.0, 12.0, 0.0, -1.0]);
    let converter = H3Converter::new(&view, Some(0), AxisOrder::YX);
    let found = convert(&converter, &transform, Resolution::Four, false);
    assert_eq!(found.len(), 2);
    let inverse = transform.inverse().expect("an inverse");
    let mut n_cells = 0;
    for place in 0..found.len() {
        let value = found.value_at(place);
        assert!(value == 1 || value == 2);
        for cell in found.coverage_at(place).compacted_iter() {
            assert_eq!(cell.resolution(), 4);
            let index = h3o::CellIndex::try_from(cell.bits()).expect("a cell index");
            let centroid: Coord = LatLng::from(index).into();
            let pixel = Point::new(centroid.x, centroid.y).affine_transform(&inverse);
            let x = pixel.x().floor() as usize;
            let y = pixel.y().floor() as usize;
            assert_eq!(values[y * 3 + x], value);
            n_cells += 1;
        }
    }
    assert!(n_cells > 10);

    let compacted = convert(&converter, &transform, Resolution::Four, true);
    assert_eq!(compacted.len(), 2);
    for place in 0..found.len() {
        let value = found.value_at(place);
        let coverage = compacted.get(value).expect("a coverage");
        for cell in found.coverage_at(place).compacted_iter() {
            assert!(coverage.covers(cell));
        }
        assert!(coverage.len() <= found.coverage_at(place).len());
    }
}
