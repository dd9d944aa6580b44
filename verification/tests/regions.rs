use formualizer_eval::coord::CellRef;
use formualizer_eval::reference_type::{AxisBound, SharedRangeRef, SheetLocator, shared_range_to_region_pattern};
use formualizer_eval::region::{AxisRange, PlacementDomain, Region, StructuralScope, bounding, formula_plane_region_from_cells};

fn at(row: u32, col: u32) -> CellRef {
    CellRef { sheet_id: 1, row, col }
}

fn bound(index: u32) -> Option<AxisBound> {
    Some(AxisBound { index, abs: false })
}

#[test]
fn ranges_intersect_where_they_share_an_index() {
    assert!(AxisRange::Point(3).intersects(AxisRange::Span(1, 3)));
    assert!(!AxisRange::Point(4).intersects(AxisRange::Span(1, 3)));
    assert!(AxisRange::From(3).intersects(AxisRange::To(3)));
    assert!(!AxisRange::From(4).intersects(AxisRange::To(3)));
    assert!(AxisRange::All.intersects(AxisRange::Point(u32::MAX)));
    assert_eq!(AxisRange::From(4).lowest(), 4);
    assert_eq!(AxisRange::From(4).highest(), u32::MAX);
    assert_eq!(AxisRange::To(4).lowest(), 0);
}

#[test]
fn regions_hold_cells_of_their_sheet_only() {
    let r = Region::rect(1, 2, 4, 3, 3);
    assert!(r.contains_key(at(2, 3)));
    assert!(r.contains_key(at(4, 3)));
    assert!(!r.contains_key(at(5, 3)));
    assert!(!r.contains_key(CellRef { sheet_id: 2, row: 2, col: 3 }));
    assert!(Region::whole_row(1, 2).intersects(&r));
    assert!(!Region::whole_row(1, 1).intersects(&r));
    assert!(!Region::whole_row(2, 2).intersects(&r));
    assert!(Region::whole_col(1, 3).intersects(&Region::point(1, 9, 3)));
    assert!(Region::cols_from(1, 3).contains_key(at(0, 3)));
    assert!(!Region::cols_from(1, 3).contains_key(at(0, 2)));
}

#[test]
fn domains_list_their_cells() {
    let d = PlacementDomain::Rect { sheet_id: 1, row_start: 2, row_end: 3, col_start: 5, col_end: 6 };
    let got: Vec<(u32, u32)> = d.placements().iter().map(|c| (c.row, c.col)).collect();
    assert_eq!(got, vec![(2, 5), (2, 6), (3, 5), (3, 6)]);
    assert_eq!(d.origin_1_based(), (3, 6));
    assert_eq!(d.corners(), (2, 3, 5, 6));
    assert!(d.contains(at(3, 5)));
    assert!(!d.contains(at(4, 5)));
    let run = PlacementDomain::RowRun { sheet_id: 1, row_start: 7, row_end: 9, col: 4 };
    assert_eq!(run.placements().len(), 3);
    let column = Region { sheet_id: 1, rows: AxisRange::Span(7, 9), cols: AxisRange::Point(4) };
    assert_eq!(Region::from_domain(&run), column);
    assert_eq!(run.sheet(), 1);
}

#[test]
fn the_bounds_of_cells_are_tight() {
    assert_eq!(bounding(&vec![at(4, 9), at(2, 11), at(3, 3)]), (2, 4, 3, 11));
}

#[test]
fn changed_cells_become_the_smallest_scope() {
    assert_eq!(formula_plane_region_from_cells(&Vec::new()), None);
    let one = formula_plane_region_from_cells(&vec![at(1, 2)]);
    assert_eq!(one, Some(StructuralScope::Region(Region::rect(1, 1, 1, 2, 2))));
    let two = formula_plane_region_from_cells(&vec![at(1, 2), at(4, 1)]);
    assert_eq!(two, Some(StructuralScope::Region(Region::rect(1, 1, 4, 1, 2))));
    let sheets = formula_plane_region_from_cells(&vec![at(1, 2), CellRef { sheet_id: 2, row: 1, col: 2 }]);
    assert_eq!(sheets, Some(StructuralScope::AllSheets));
}

#[test]
fn range_dependencies_become_regions() {
    let mut r = SharedRangeRef {
        sheet: SheetLocator::Current,
        start_row: bound(1),
        start_col: bound(2),
        end_row: bound(3),
        end_col: bound(4),
    };
    assert_eq!(shared_range_to_region_pattern(&r, 9), Some(Region::rect(9, 1, 3, 2, 4)));
    r.start_row = None;
    r.end_row = None;
    assert_eq!(shared_range_to_region_pattern(&r, 9), None);
    r.end_col = bound(2);
    assert_eq!(shared_range_to_region_pattern(&r, 9), Some(Region::whole_col(9, 2)));
    r.sheet = SheetLocator::Id(4);
    r.start_col = None;
    r.end_col = None;
    r.start_row = bound(6);
    r.end_row = bound(6);
    assert_eq!(shared_range_to_region_pattern(&r, 9), Some(Region::whole_row(4, 6)));
    r.sheet = SheetLocator::Name("Data".to_string());
    assert_eq!(shared_range_to_region_pattern(&r, 9), None);
}
