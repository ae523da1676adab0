use rasterh3::raster::Raster;
use rasterh3::sparse::{
    find_boxes_between, find_boxes_containing_data, find_continuous_chunks_along_axis, PixelRect,
};
use rasterh3::AxisOrder;

const CLUSTERS: [u64; 108] = [
    0, 0, 0, 0, 0, 0, 0, 0, 0, 0, 0, 0, //
    0, 1, 0, 0, 0, 0, 0, 0, 1, 0, 0, 0, //
    0, 1, 1, 0, 0, 0, 0, 1, 1, 1, 0, 0, //
    0, 0, 0, 0, 0, 0, 0, 1, 1, 1, 0, 0, //
    0, 0, 0, 0, 0, 0, 0, 0, 1, 0, 0, 0, //
    0, 0, 0, 0, 0, 0, 0, 0, 0, 0, 0, 0, //
    0, 0, 0, 1, 0, 0, 0, 0, 0, 0, 0, 0, //
    0, 0, 0, 1, 0, 0, 0, 0, 0, 0, 1, 1, //
    0, 0, 0, 1, 1, 0, 0, 0, 0, 0, 1, 1, //
];

fn rect(min_x: usize, min_y: usize, max_x: usize, max_y: usize) -> PixelRect {
    PixelRect { min_x, min_y, max_x, max_y }
}

#[test]
fn test_find_boxes_containing_data() {
    let arr = CLUSTERS;
    let view = Raster::new(9, 12, &arr).expect("a grid of 9 by 12");
    let mut arr_copy = arr;

    let n_elements = 9 * 12;
    let mut n_elements_in_boxes = 0;

    for rect in find_boxes_containing_data(&view, 0, AxisOrder::YX) {
        n_elements_in_boxes += (rect.max_x - rect.min_x + 1) * (rect.max_y - rect.min_y + 1);

        for x in rect.min_x..=rect.max_x {
            for y in rect.min_y..=rect.max_y {
                arr_copy[y * 12 + x] = 0;
            }
        }
    }

    // there should be far fewer indexes to visit now
    assert!(n_elements_in_boxes < (n_elements / 2));

    // all elements should have been removed
    assert_eq!(arr_copy.iter().sum::<u64>(), 0);
}

#[test]
fn boxes_of_the_clusters() {
    let view = Raster::new(9, 12, &CLUSTERS).expect("a grid of 9 by 12");
    assert_eq!(
        find_boxes_containing_data(&view, 0, AxisOrder::YX),
        vec![
            rect(1, 1, 2, 2),
            rect(3, 6, 4, 8),
            rect(7, 1, 9, 4),
            rect(10, 7, 11, 8),
        ]
    );
}

#[test]
fn boxes_follow_the_axis_order() {
    let view = Raster::new(9, 12, &CLUSTERS).expect("a grid of 9 by 12");
    // with the first dimension along x, the boxes are those of the transposed grid
    let mut transposed: Vec<PixelRect> = find_boxes_containing_data(&view, 0, AxisOrder::XY)
        .into_iter()
        .map(|found| rect(found.min_y, found.min_x, found.max_y, found.max_x))
        .collect();
    transposed.sort_by_key(|found| (found.min_x, found.min_y));
    assert_eq!(
        transposed,
        vec![
            rect(1, 1, 2, 2),
            rect(3, 6, 4, 8),
            rect(7, 1, 9, 4),
            rect(10, 7, 11, 8),
        ]
    );
}

#[test]
fn clusters_that_share_rows_end_up_in_one_box() {
    let values: [u64; 20] = [
        1, 0, 0, 0, 0,
        0, 1, 0, 0, 0,
        0, 0, 0, 0, 1,
        0, 0, 0, 0, 0,
    ];
    let view = Raster::new(4, 5, &values).expect("a grid of 4 by 5");
    assert_eq!(
        find_boxes_containing_data(&view, 0, AxisOrder::YX),
        vec![rect(0, 0, 1, 1), rect(4, 2, 4, 2)]
    );
}

#[test]
fn a_raster_without_data_has_no_boxes() {
    let values = [7_u64; 12];
    let view = Raster::new(3, 4, &values).expect("a grid of 3 by 4");
    assert!(find_boxes_containing_data(&view, 7, AxisOrder::YX).is_empty());
    assert_eq!(
        find_boxes_containing_data(&view, 0, AxisOrder::YX),
        vec![rect(0, 0, 3, 2)]
    );
    let nothing: [u64; 0] = [];
    let empty = Raster::new(0, 4, &nothing).expect("a grid without rows");
    assert!(find_boxes_containing_data(&empty, 0, AxisOrder::YX).is_empty());
    assert!(find_boxes_containing_data(&empty, 0, AxisOrder::XY).is_empty());
}

#[test]
fn boxes_between_columns_look_at_these_columns_only() {
    let view = Raster::new(9, 12, &CLUSTERS).expect("a grid of 9 by 12");
    assert_eq!(
        find_boxes_between(&view, 0, AxisOrder::YX, 2, 8),
        vec![rect(2, 2, 2, 2), rect(3, 6, 4, 8), rect(7, 2, 7, 3)]
    );
    assert!(find_boxes_between(&view, 0, AxisOrder::YX, 5, 7).is_empty());
    assert!(find_boxes_between(&view, 0, AxisOrder::YX, 7, 7).is_empty());
}

#[test]
fn chunks_are_the_runs_of_occupied_lanes() {
    let view = Raster::new(9, 12, &CLUSTERS).expect("a grid of 9 by 12");
    // columns that hold data in any row
    assert_eq!(
        find_continuous_chunks_along_axis(&view, AxisOrder::YX, 0, true, 0, 9, 0, 12),
        vec![(1, 4), (7, 11)]
    );
    // rows that hold data in any column
    assert_eq!(
        find_continuous_chunks_along_axis(&view, AxisOrder::YX, 0, false, 0, 12, 0, 9),
        vec![(1, 4), (6, 8)]
    );
    // rows that hold data in the columns 1 to 4
    assert_eq!(
        find_continuous_chunks_along_axis(&view, AxisOrder::YX, 0, false, 1, 5, 0, 9),
        vec![(1, 2), (6, 8)]
    );
    // a run that reaches the last lane is closed there
    assert_eq!(
        find_continuous_chunks_along_axis(&view, AxisOrder::YX, 0, true, 7, 9, 9, 12),
        vec![(10, 11)]
    );
}

#[test]
fn raster_is_laid_over_the_values_row_by_row() {
    let values: [u64; 7] = [10, 11, 12, 20, 21, 22, 99];
    let view = Raster::new(2, 3, &values).expect("a grid of 2 by 3");
    assert_eq!(view.shape(), (2, 3));
    assert_eq!(view.extent(AxisOrder::XY), (2, 3));
    assert_eq!(view.extent(AxisOrder::YX), (3, 2));
    assert_eq!(view.value_at(AxisOrder::XY, 1, 2), Some(22));
    assert_eq!(view.value_at(AxisOrder::YX, 1, 2), None);
    assert_eq!(view.value_at(AxisOrder::YX, 2, 1), Some(22));
    assert_eq!(view.value_at(AxisOrder::YX, 0, 1), Some(20));
    assert_eq!(view.value_at(AxisOrder::XY, 2, 0), None);
    assert_eq!(view.value_at(AxisOrder::XY, 0, 3), None);
}

#[test]
fn raster_needs_enough_values() {
    let values: [u64; 5] = [1, 2, 3, 4, 5];
    assert!(Raster::new(2, 3, &values).is_none());
    assert!(Raster::new(5, 1, &values).is_some());
    assert!(Raster::new(0, 3, &values).is_some());
    assert!(Raster::new(usize::MAX, 2, &values).is_none());
    assert!(Raster::new(usize::MAX, 0, &values).is_none());
}

#[test]
fn axis_order_names_the_dimensions() {
    assert_eq!(AxisOrder::XY.x_axis(), 0);
    assert_eq!(AxisOrder::XY.y_axis(), 1);
    assert_eq!(AxisOrder::YX.x_axis(), 1);
    assert_eq!(AxisOrder::YX.y_axis(), 0);
}
