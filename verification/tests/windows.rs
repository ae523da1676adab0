use rasterh3::raster::Raster;
use rasterh3::sparse::PixelRect;
use rasterh3::windows::{chunk_size, count_tiles, grid_rects, push_box_rects};
use rasterh3::{AxisOrder, H3Converter};

fn rect(min_x: usize, min_y: usize, max_x: usize, max_y: usize) -> PixelRect {
    PixelRect { min_x, min_y, max_x, max_y }
}

#[test]
fn window_edge_is_a_tenth_between_10_and_100() {
    assert_eq!(chunk_size(0), 10);
    assert_eq!(chunk_size(99), 10);
    assert_eq!(chunk_size(109), 10);
    assert_eq!(chunk_size(110), 11);
    assert_eq!(chunk_size(555), 55);
    assert_eq!(chunk_size(1000), 100);
    assert_eq!(chunk_size(1009), 100);
    assert_eq!(chunk_size(1010), 100);
    assert_eq!(chunk_size(2000), 100);
}

#[test]
fn pieces_are_counted_with_the_short_last_one() {
    assert_eq!(count_tiles(0, 10), 0);
    assert_eq!(count_tiles(1, 10), 1);
    assert_eq!(count_tiles(10, 10), 1);
    assert_eq!(count_tiles(11, 10), 2);
    assert_eq!(count_tiles(2000, 100), 20);
}

#[test]
fn grid_covers_the_array_column_after_column() {
    assert_eq!(
        grid_rects(25, 12, 10),
        vec![
            rect(0, 0, 10, 10),
            rect(0, 10, 10, 12),
            rect(10, 0, 20, 10),
            rect(10, 10, 20, 12),
            rect(20, 0, 25, 10),
            rect(20, 10, 25, 12),
        ]
    );
    assert!(grid_rects(0, 12, 10).is_empty());
    assert!(grid_rects(12, 0, 10).is_empty());
    assert_eq!(grid_rects(2, 2, 10), vec![rect(0, 0, 2, 2)]);
}

#[test]
fn a_box_is_cut_into_windows_along_y() {
    let mut out = Vec::new();
    push_box_rects(rect(3, 5, 7, 30), 10, &mut out);
    assert_eq!(
        out,
        vec![rect(3, 5, 8, 16), rect(3, 15, 8, 26), rect(3, 25, 8, 31)]
    );
    let mut out = vec![rect(0, 0, 1, 1)];
    push_box_rects(rect(3, 5, 7, 15), 10, &mut out);
    assert_eq!(out, vec![rect(0, 0, 1, 1), rect(3, 5, 8, 16)]);
}

#[test]
fn a_box_of_one_row_gets_one_window() {
    let mut out = Vec::new();
    push_box_rects(rect(3, 5, 3, 5), 10, &mut out);
    assert_eq!(out, vec![rect(3, 5, 4, 6)]);
}

#[test]
fn windows_without_nodata_are_the_grid() {
    let values = [0_u64; 15 * 25];
    let view = Raster::new(15, 25, &values).expect("a grid of 15 by 25");
    let converter = H3Converter::new(&view, None, AxisOrder::YX);
    assert_eq!(converter.window_edge(), 10);
    assert_eq!(converter.rects_with_data(10), grid_rects(25, 15, 10));
    assert_eq!(converter.rects_with_data_without_nodata(10), grid_rects(25, 15, 10));
    let converter = H3Converter::new(&view, None, AxisOrder::XY);
    assert_eq!(converter.rects_with_data(10), grid_rects(15, 25, 10));
}

#[test]
fn windows_with_nodata_lie_over_the_data() {
    let mut values = [0_u64; 30 * 25];
    // a cluster in the rows 3 to 16 and the columns 8 to 12
    for y in 3..=16 {
        for x in 8..=12 {
            values[y * 25 + x] = 5;
        }
    }
    // a single pixel
    values[28 * 25 + 21] = 6;
    let view = Raster::new(30, 25, &values).expect("a grid of 30 by 25");
    let converter = H3Converter::new(&view, Some(0), AxisOrder::YX);
    let windows = converter.rects_with_data(10);
    assert_eq!(
        windows,
        vec![
            rect(8, 3, 10, 14),
            rect(8, 13, 10, 17),
            rect(10, 3, 13, 14),
            rect(10, 13, 13, 17),
            rect(21, 28, 22, 29),
        ]
    );
    assert_eq!(windows, converter.rects_with_data_with_nodata(10, 0));
    assert_eq!(
        converter.chunk_rects_with_data_nodata(10, 0, 0),
        vec![rect(8, 3, 10, 14), rect(8, 13, 10, 17)]
    );
    assert_eq!(converter.chunk_rects_with_data_nodata(10, 0, 2), vec![rect(21, 28, 22, 29)]);
    for y in 0..30 {
        for x in 0..25 {
            if values[y * 25 + x] != 0 {
                assert!(windows.iter().any(|window| window.min_x <= x
                    && x < window.max_x
                    && window.min_y <= y
                    && y < window.max_y));
            }
        }
    }
}
