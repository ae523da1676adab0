use h3o::{CellIndex, LatLng, Resolution};
use rasterh3::{Cell, CellCoverage};

fn cell(bits: u64) -> Cell {
    Cell::from_bits(bits).expect("a cell index")
}

fn from_index(index: CellIndex) -> Cell {
    cell(u64::from(index))
}

fn bits(cells: Vec<Cell>) -> Vec<u64> {
    cells.into_iter().map(|cell| cell.bits()).collect()
}

/// The cell of `resolution` above one and the same cell of resolution 15.
fn somewhere(resolution: Resolution) -> CellIndex {
    LatLng::new(48.19, 9.31)
        .expect("a coordinate")
        .to_cell(Resolution::Fifteen)
        .parent(resolution)
        .expect("a parent")
}

fn children(index: CellIndex, resolution: Resolution) -> Vec<CellIndex> {
    index.children(resolution).collect()
}

#[test]
fn insert_goes_to_the_bucket_of_its_resolution() {
    let mut coverage = CellCoverage::default();
    assert!(coverage.is_empty());
    assert_eq!(coverage.len(), 0);
    coverage.insert(cell(0x8a1fb46622dffff));
    assert_eq!(coverage.len(), 1);
    assert!(!coverage.is_empty());
    assert!(coverage.covers(cell(0x8a1fb46622dffff)));
    assert_eq!(bits(coverage.compacted_iter()), vec![0x8a1fb46622dffff]);
}

#[test]
fn compacted_iter_runs_from_coarse_to_fine() {
    let fine = somewhere(Resolution::Nine);
    let coarse = LatLng::new(-33.9, 151.2).expect("a coordinate").to_cell(Resolution::Three);
    let mut coverage = CellCoverage::new();
    coverage.insert(from_index(fine));
    coverage.insert(from_index(coarse));
    coverage.insert(from_index(fine));
    assert_eq!(coverage.len(), 3);
    assert_eq!(
        bits(coverage.compacted_iter()),
        vec![u64::from(coarse), u64::from(fine), u64::from(fine)]
    );
    assert_eq!(
        bits(coverage.into_compacted_iter()),
        vec![u64::from(coarse), u64::from(fine), u64::from(fine)]
    );
}

#[test]
fn dedup_sorts_and_removes_repetitions() {
    let parent = somewhere(Resolution::Five);
    let kids = children(parent, Resolution::Six);
    let mut coverage = CellCoverage::new();
    for kid in kids.iter().rev() {
        coverage.insert(from_index(*kid));
        coverage.insert(from_index(*kid));
    }
    assert_eq!(coverage.len(), 14);
    coverage.dedup(false, false);
    let mut expected: Vec<u64> = kids.iter().map(|kid| u64::from(*kid)).collect();
    expected.sort();
    assert_eq!(bits(coverage.compacted_iter()), expected);
}

#[test]
fn dedup_without_parents_keeps_covered_cells() {
    let parent = somewhere(Resolution::Five);
    let kid = somewhere(Resolution::Six);
    let mut coverage = CellCoverage::new();
    coverage.insert(from_index(kid));
    coverage.insert(from_index(parent));
    coverage.dedup(true, false);
    assert_eq!(bits(coverage.compacted_iter()), vec![u64::from(parent), u64::from(kid)]);
}

#[test]
fn dedup_with_parents_removes_covered_cells() {
    let grandparent = somewhere(Resolution::Four);
    let parent = somewhere(Resolution::Five);
    let kid = somewhere(Resolution::Seven);
    let stranger = LatLng::new(-33.9, 151.2).expect("a coordinate").to_cell(Resolution::Seven);
    let mut coverage = CellCoverage::new();
    coverage.insert(from_index(kid));
    coverage.insert(from_index(stranger));
    coverage.insert(from_index(parent));
    coverage.insert(from_index(grandparent));
    coverage.dedup(true, true);
    assert_eq!(
        bits(coverage.compacted_iter()),
        vec![u64::from(grandparent), u64::from(stranger)]
    );
    assert!(coverage.covers(from_index(kid)));
    assert!(coverage.covers(from_index(parent)));
}

#[test]
fn compact_replaces_complete_groups_by_their_parent() {
    let parent = somewhere(Resolution::Five);
    let mut coverage = CellCoverage::new();
    for kid in children(parent, Resolution::Six) {
        coverage.insert(from_index(kid));
    }
    assert_eq!(coverage.len(), 7);
    coverage.compact().expect("a compaction");
    assert_eq!(bits(coverage.compacted_iter()), vec![u64::from(parent)]);
}

#[test]
fn compact_climbs_more_than_one_resolution() {
    let top = somewhere(Resolution::Three);
    let mut coverage = CellCoverage::new();
    for kid in children(top, Resolution::Five) {
        coverage.insert(from_index(kid));
    }
    assert_eq!(coverage.len(), 49);
    coverage.compact().expect("a compaction");
    assert_eq!(bits(coverage.compacted_iter()), vec![u64::from(top)]);
}

#[test]
fn compact_joins_cells_that_arrive_from_a_finer_resolution() {
    let parent = somewhere(Resolution::Five);
    let kids = children(parent, Resolution::Six);
    let mut coverage = CellCoverage::new();
    // six children at resolution 6, the seventh as its own seven children
    for kid in kids.iter().skip(1) {
        coverage.insert(from_index(*kid));
    }
    for grandchild in children(kids[0], Resolution::Seven) {
        coverage.insert(from_index(grandchild));
    }
    coverage.compact().expect("a compaction");
    assert_eq!(bits(coverage.compacted_iter()), vec![u64::from(parent)]);
}

#[test]
fn compact_leaves_incomplete_groups() {
    let parent = somewhere(Resolution::Five);
    let kids = children(parent, Resolution::Six);
    let mut coverage = CellCoverage::new();
    for kid in kids.iter().take(6) {
        coverage.insert(from_index(*kid));
        coverage.insert(from_index(*kid));
    }
    coverage.compact().expect("a compaction");
    let mut expected: Vec<u64> = kids.iter().take(6).map(|kid| u64::from(*kid)).collect();
    expected.sort();
    assert_eq!(bits(coverage.compacted_iter()), expected);
}

#[test]
fn compacting_twice_changes_nothing() {
    let parent = somewhere(Resolution::Five);
    let stranger = LatLng::new(-33.9, 151.2).expect("a coordinate").to_cell(Resolution::Eight);
    let mut coverage = CellCoverage::new();
    for kid in children(parent, Resolution::Seven) {
        coverage.insert(from_index(kid));
    }
    coverage.insert(from_index(stranger));
    coverage.insert(from_index(somewhere(Resolution::Six)));
    coverage.compact().expect("a compaction");
    let once = bits(coverage.compacted_iter());
    coverage.compact().expect("a compaction");
    assert_eq!(bits(coverage.compacted_iter()), once);
    assert_eq!(once, vec![u64::from(parent), u64::from(stranger)]);
}

#[test]
fn inserted_cells_stay_covered() {
    let parent = somewhere(Resolution::Five);
    let mut inserted = children(parent, Resolution::Seven);
    inserted.push(LatLng::new(-33.9, 151.2).expect("a coordinate").to_cell(Resolution::Eight));
    inserted.push(somewhere(Resolution::Two));
    let mut coverage = CellCoverage::new();
    for index in inserted.iter() {
        coverage.insert(from_index(*index));
    }
    for index in inserted.iter() {
        assert!(coverage.covers(from_index(*index)));
    }
    coverage.compact().expect("a compaction");
    for index in inserted.iter() {
        assert!(coverage.covers(from_index(*index)));
    }
    let elsewhere = LatLng::new(10.0, 10.0).expect("a coordinate").to_cell(Resolution::Eight);
    assert!(!coverage.covers(from_index(elsewhere)));
}

#[test]
fn no_cell_is_left_inside_another_after_compaction() {
    let mut coverage = CellCoverage::new();
    for resolution in Resolution::range(Resolution::Zero, Resolution::Fifteen) {
        coverage.insert(from_index(somewhere(resolution)));
    }
    for kid in children(somewhere(Resolution::Four), Resolution::Six) {
        coverage.insert(from_index(kid));
    }
    let stranger = LatLng::new(-33.9, 151.2).expect("a coordinate").to_cell(Resolution::Eight);
    coverage.insert(from_index(stranger));
    coverage.compact().expect("a compaction");
    let left = bits(coverage.compacted_iter());
    assert_eq!(left, vec![u64::from(somewhere(Resolution::Zero)), u64::from(stranger)]);
    for a in left.iter() {
        for b in left.iter() {
            let above = CellIndex::try_from(*a).expect("a cell index");
            let below = CellIndex::try_from(*b).expect("a cell index");
            if a != b {
                assert_ne!(below.parent(above.resolution()), Some(above));
            }
        }
    }
}

#[test]
fn finalize_without_compaction_only_removes_what_is_covered() {
    let parent = somewhere(Resolution::Five);
    let mut coverage = CellCoverage::new();
    for kid in children(parent, Resolution::Six) {
        coverage.insert(from_index(kid));
        coverage.insert(from_index(kid));
    }
    coverage.finalize(false).expect("a finalized coverage");
    assert_eq!(coverage.len(), 7);
    coverage.finalize(true).expect("a finalized coverage");
    assert_eq!(bits(coverage.compacted_iter()), vec![u64::from(parent)]);
}

#[test]
fn append_moves_the_cells_over() {
    let mut one = CellCoverage::new();
    let mut other = CellCoverage::new();
    let parent = somewhere(Resolution::Five);
    let kids = children(parent, Resolution::Six);
    for kid in kids.iter().take(3) {
        one.insert(from_index(*kid));
    }
    for kid in kids.iter().skip(3) {
        other.insert(from_index(*kid));
    }
    one.compact().expect("a compaction");
    other.compact().expect("a compaction");
    one.append(&mut other);
    assert!(other.is_empty());
    assert_eq!(other.len(), 0);
    assert_eq!(one.len(), 7);
    assert_eq!(
        bits(one.compacted_iter()),
        kids.iter().map(|kid| u64::from(*kid)).collect::<Vec<u64>>()
    );
    // the cells that arrived mark their resolution, so that they are compacted
    one.compact().expect("a compaction");
    assert_eq!(bits(one.compacted_iter()), vec![u64::from(parent)]);
}

#[test]
fn uncompacted_iter_expands_to_the_children() {
    let parent = somewhere(Resolution::Five);
    let fine = LatLng::new(-33.9, 151.2).expect("a coordinate").to_cell(Resolution::Seven);
    let too_fine = LatLng::new(10.0, 10.0).expect("a coordinate").to_cell(Resolution::Nine);
    let mut coverage = CellCoverage::new();
    coverage.insert(from_index(fine));
    coverage.insert(from_index(parent));
    coverage.insert(from_index(too_fine));
    let mut expected: Vec<u64> = children(parent, Resolution::Seven)
        .into_iter()
        .map(u64::from)
        .collect();
    assert_eq!(expected.len(), 49);
    expected.push(u64::from(fine));
    assert_eq!(bits(coverage.uncompacted_iter(7)), expected);
    assert_eq!(bits(coverage.into_uncompacted_iter(7)), expected);
}

#[test]
fn uncompacted_iter_at_a_coarse_resolution_leaves_fine_cells_out() {
    let mut coverage = CellCoverage::new();
    coverage.insert(from_index(somewhere(Resolution::Nine)));
    assert!(coverage.uncompacted_iter(3).is_empty());
}

#[test]
fn len_counts_repetitions() {
    let mut coverage = CellCoverage::new();
    for _ in 0..5 {
        coverage.insert(from_index(somewhere(Resolution::Nine)));
    }
    coverage.insert(from_index(somewhere(Resolution::Two)));
    assert_eq!(coverage.len(), 6);
    coverage.dedup(false, false);
    assert_eq!(coverage.len(), 2);
}

#[test]
fn cells_of_resolution_0_are_left_as_they_are() {
    let mut coverage = CellCoverage::new();
    let bases: Vec<CellIndex> = CellIndex::base_cells().take(10).collect();
    for base in bases.iter().rev() {
        coverage.insert(from_index(*base));
        coverage.insert(from_index(*base));
    }
    coverage.compact().expect("a compaction");
    let mut expected: Vec<u64> = bases.iter().map(|base| u64::from(*base)).collect();
    expected.sort();
    assert_eq!(bits(coverage.compacted_iter()), expected);
    for base in bases.iter() {
        assert!(coverage.covers(from_index(*base)));
        let kid = base.children(Resolution::Two).next().expect("a child");
        assert!(coverage.covers(from_index(kid)));
    }
}

#[test]
fn the_children_of_a_pentagon_compact_into_it() {
    let pentagon = CellIndex::base_cells()
        .find(|base| base.is_pentagon())
        .expect("a pentagon");
    let kids = children(pentagon, Resolution::Two);
    assert_eq!(kids.len(), 41);
    let mut coverage = CellCoverage::new();
    for kid in kids.iter() {
        coverage.insert(from_index(*kid));
    }
    assert!(coverage.covers(from_index(kids[17])));
    assert!(!coverage.covers(from_index(pentagon)));
    coverage.compact().expect("a compaction");
    assert_eq!(bits(coverage.compacted_iter()), vec![u64::from(pentagon)]);
    assert!(coverage.covers(from_index(kids[17])));
    assert_eq!(
        bits(coverage.uncompacted_iter(2)),
        kids.iter().map(|kid| u64::from(*kid)).collect::<Vec<u64>>()
    );
}

#[test]
fn an_empty_coverage_stays_empty() {
    let mut coverage = CellCoverage::default();
    coverage.dedup(true, true);
    coverage.compact().expect("a compaction");
    coverage.finalize(false).expect("a finalized coverage");
    assert!(coverage.is_empty());
    assert!(coverage.compacted_iter().is_empty());
    assert!(coverage.uncompacted_iter(15).is_empty());
    assert!(!coverage.covers(from_index(somewhere(Resolution::Three))));
    let mut other = CellCoverage::new();
    coverage.append(&mut other);
    assert!(coverage.is_empty());
}

#[test]
fn cells_may_arrive_in_any_order() {
    let parent = somewhere(Resolution::Five);
    let mut cells = children(parent, Resolution::Seven);
    cells.truncate(40);
    cells.push(LatLng::new(-33.9, 151.2).expect("a coordinate").to_cell(Resolution::Six));
    let mut forward = CellCoverage::new();
    for index in cells.iter() {
        forward.insert(from_index(*index));
    }
    let mut backward = CellCoverage::new();
    for index in cells.iter().rev() {
        backward.insert(from_index(*index));
        backward.insert(from_index(*index));
    }
    forward.finalize(true).expect("a finalized coverage");
    backward.finalize(true).expect("a finalized coverage");
    assert_eq!(bits(forward.compacted_iter()), bits(backward.compacted_iter()));
    assert_eq!(forward.len(), 5 + 5 + 1);
}

#[test]
fn compaction_agrees_with_the_grid() {
    let top = somewhere(Resolution::Four);
    let kept: Vec<CellIndex> = children(top, Resolution::Seven)
        .into_iter()
        .enumerate()
        .filter(|(i, _)| i % 11 != 3)
        .map(|(_, index)| index)
        .collect();
    assert!(kept.len() > 300);
    let mut coverage = CellCoverage::new();
    for index in kept.iter().rev() {
        coverage.insert(from_index(*index));
    }
    for index in kept.iter().step_by(3) {
        coverage.insert(from_index(*index));
    }
    coverage.compact().expect("a compaction");
    let mut expected: Vec<u64> = CellIndex::compact(kept.iter().copied())
        .expect("a compaction")
        .map(u64::from)
        .collect();
    expected.sort_by_key(|bits| (rasterh3::cell::resolution_of(*bits), *bits));
    let found = bits(coverage.compacted_iter());
    assert_eq!(found, expected);
    assert!(found.len() < kept.len());
    let mut expanded = bits(coverage.uncompacted_iter(7));
    expanded.sort();
    let mut all: Vec<u64> = kept.iter().map(|index| u64::from(*index)).collect();
    all.sort();
    assert_eq!(expanded, all);
}
