use h3o::{CellIndex, LatLng, Resolution};
use rasterh3::cell::{can_count_children, parent_of, resolution_of};
use rasterh3::Cell;

#[test]
fn from_bits_accepts_cell_indexes_only() {
    let cell = Cell::from_bits(0x8a1fb46622dffff).expect("a cell index");
    assert_eq!(cell.bits(), 0x8a1fb46622dffff);
    assert_eq!(cell.resolution(), 10);
    assert!(Cell::from_bits(0).is_none());
    assert!(Cell::from_bits(u64::MAX).is_none());
    // an index of resolution 10 whose unused digits are not all set
    assert!(Cell::from_bits(0x8a1fb46622d0000).is_none());
    // a directed edge index is no cell index
    assert!(Cell::from_bits(0x13a194e699ab7fff).is_none());
}

#[test]
fn resolution_is_read_as_h3o_reads_it() {
    let place = LatLng::new(48.19, 9.31).expect("a coordinate");
    for resolution in Resolution::range(Resolution::Zero, Resolution::Fifteen) {
        let index = place.to_cell(resolution);
        assert_eq!(resolution_of(u64::from(index)), u8::from(resolution));
    }
}

#[test]
fn parent_is_computed_as_h3o_computes_it() {
    assert_eq!(parent_of(0x8a1fb46622dffff, 5), 0x851fb467fffffff);
    for (lat, lng) in [(48.19, 9.31), (-33.9, 151.2), (64.7, -147.5), (0.0, 0.0), (89.9, 179.9)] {
        let place = LatLng::new(lat, lng).expect("a coordinate");
        let index = place.to_cell(Resolution::Fifteen);
        for resolution in Resolution::range(Resolution::Zero, Resolution::Fifteen) {
            let parent = index.parent(resolution).expect("a parent");
            assert_eq!(parent_of(u64::from(index), u8::from(resolution)), u64::from(parent));
            for coarser in Resolution::range(Resolution::Zero, resolution) {
                assert_eq!(
                    parent_of(u64::from(parent), u8::from(coarser)),
                    parent_of(u64::from(index), u8::from(coarser))
                );
            }
        }
    }
}

#[test]
fn parent_at_the_own_resolution_is_the_cell() {
    let index = CellIndex::try_from(0x8a1fb46622dffff).expect("a cell index");
    assert_eq!(parent_of(u64::from(index), 10), u64::from(index));
}

#[test]
fn words_of_64_bits_count_children() {
    assert_eq!(can_count_children(), usize::BITS >= 64);
}

#[test]
fn sort_unique_gives_each_value_once_in_ascending_order() {
    let mut cells: Vec<u64> = vec![9, 3, 7, 3, 1, 9, 9, 2];
    rasterh3::sorting::sort_unique(&mut cells, true);
    assert_eq!(cells, vec![1, 2, 3, 7, 9]);
    let mut nothing: Vec<u64> = Vec::new();
    rasterh3::sorting::sort_unique(&mut nothing, false);
    assert!(nothing.is_empty());
    let mut sorted: Vec<u64> = vec![1, 1, 1, 4, 4, 5];
    rasterh3::sorting::drop_repeats(&mut sorted);
    assert_eq!(sorted, vec![1, 4, 5]);
}
