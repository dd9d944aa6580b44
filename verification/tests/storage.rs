use formualizer_eval::coord::CellRef;
use formualizer_eval::overlay::{Axis, Lane, OverlayValue, literal_to_overlay_value, normalize_public_cell_read};
use formualizer_eval::region::{AxisRange, Region};
use formualizer_eval::store::{CellStore, Extent};
use formualizer_eval::value::{ErrorKind, ExcelError, LiteralValue};

fn at(row: u32, col: u32) -> CellRef {
    CellRef { sheet_id: 1, row, col }
}

fn num(x: f64) -> LiteralValue {
    LiteralValue::Number(x.to_bits())
}

fn is_num(v: &LiteralValue, x: f64) -> bool {
    v.same(&num(x))
}

#[test]
fn edits_lie_over_computed_values_over_base_values() {
    let mut s = CellStore::new(None);
    s.load_base(at(0, 0), OverlayValue::Number(1.0f64.to_bits()));
    assert!(is_num(&s.read_cell(at(0, 0)), 1.0));
    s.write_computed_overlay_value_0based(at(0, 0), OverlayValue::Number(2.0f64.to_bits()));
    assert!(is_num(&s.read_cell(at(0, 0)), 2.0));
    s.mirror_value_to_overlay(1, 1, 1, &num(3.0));
    assert!(is_num(&s.read_cell(at(0, 0)), 3.0));
    s.clear_delta_overlay_cell(1, 1, 1);
    assert!(is_num(&s.read_cell(at(0, 0)), 1.0));
}

#[test]
fn an_edit_drops_the_computed_value_beneath_it() {
    let mut s = CellStore::new(None);
    s.mirror_value_to_computed_overlay(1, 1, 1, &num(2.0));
    s.mirror_value_to_overlay(1, 1, 1, &num(3.0));
    assert!(s.read_computed_overlay_cell(1, 1, 1).is_none());
    assert!(is_num(&s.read_delta_overlay_cell(1, 1, 1).unwrap(), 3.0));
}

#[test]
fn an_edit_to_empty_masks_what_lies_beneath() {
    let mut s = CellStore::new(None);
    s.load_base(at(0, 0), OverlayValue::Boolean(true));
    s.mirror_value_to_overlay(1, 1, 1, &LiteralValue::Empty);
    assert!(s.get_cell_value(1, 1, 1).is_none());
    assert!(s.read_delta_overlay_cell(1, 1, 1).unwrap().is_empty());
}

#[test]
fn other_cells_keep_their_values() {
    let mut s = CellStore::new(None);
    s.mirror_value_to_overlay(1, 1, 1, &num(1.0));
    s.mirror_value_to_overlay(2, 1, 1, &num(2.0));
    s.mirror_value_to_overlay(1, 2, 1, &num(3.0));
    assert!(is_num(&s.get_cell_value(1, 1, 1).unwrap(), 1.0));
    assert!(is_num(&s.get_cell_value(2, 1, 1).unwrap(), 2.0));
    assert!(is_num(&s.get_cell_value(1, 2, 1).unwrap(), 3.0));
    assert!(s.get_cell_value(2, 2, 1).is_none());
}

#[test]
fn folding_computed_values_changes_no_reading() {
    let mut s = CellStore::new(None);
    s.load_base(at(0, 0), OverlayValue::Number(1.0f64.to_bits()));
    s.write_computed_overlay_value_0based(at(0, 0), OverlayValue::Number(5.0f64.to_bits()));
    s.write_computed_overlay_value_0based(at(4, 2), OverlayValue::Text("x".to_string()));
    assert_eq!(s.overlay_memory_usage(), 32 + 32 + 1);
    s.compact_all_computed_overlays();
    assert_eq!(s.overlay_memory_usage(), 0);
    assert!(is_num(&s.read_cell(at(0, 0)), 5.0));
    assert!(matches!(s.read_cell(at(4, 2)), LiteralValue::Text(t) if t == "x"));
}

#[test]
fn computed_values_beyond_the_budget_are_folded() {
    let mut s = CellStore::new(Some(50));
    s.write_computed_overlay_value_0based(at(0, 0), OverlayValue::Number(1.0f64.to_bits()));
    assert_eq!(s.overlay_memory_usage(), 32);
    s.write_computed_overlay_value_0based(at(1, 0), OverlayValue::Number(2.0f64.to_bits()));
    assert_eq!(s.overlay_memory_usage(), 0);
    assert!(is_num(&s.read_cell(at(0, 0)), 1.0));
    assert!(is_num(&s.read_cell(at(1, 0)), 2.0));
}

#[test]
fn extents_grow_with_writes() {
    let mut s = CellStore::new(None);
    assert!(s.extent(1).is_none());
    s.ensure_arrow_sheet(1);
    assert_eq!(s.extent(1), Some(Extent { rows: 0, cols: 0 }));
    s.mirror_value_to_overlay(1, 10, 4, &num(1.0));
    assert_eq!(s.extent(1), Some(Extent { rows: 10, cols: 4 }));
}

#[test]
fn values_read_back_as_they_were_stored() {
    assert!(matches!(literal_to_overlay_value(&LiteralValue::Int(3)), OverlayValue::Number(b) if b == 3.0f64.to_bits()));
    assert!(matches!(literal_to_overlay_value(&LiteralValue::Boolean(true)), OverlayValue::Boolean(true)));
    assert!(matches!(literal_to_overlay_value(&LiteralValue::Pending), OverlayValue::Pending));
    let e = LiteralValue::Error(ExcelError::new(ErrorKind::Div).with_message("no"));
    assert!(matches!(literal_to_overlay_value(&e), OverlayValue::Error(ErrorKind::Div)));
    let a = LiteralValue::Array(vec![vec![LiteralValue::Int(1)]]);
    assert!(matches!(literal_to_overlay_value(&a), OverlayValue::Error(ErrorKind::Value)));
    let t = literal_to_overlay_value(&LiteralValue::Text("abc".to_string())).to_literal();
    assert!(matches!(t, LiteralValue::Text(s) if s == "abc"));
    let d = literal_to_overlay_value(&LiteralValue::Date(7)).to_literal();
    assert!(matches!(d, LiteralValue::DateTime(7)));
}

#[test]
fn public_reads_hide_empty_cells_and_widen_integers() {
    assert!(normalize_public_cell_read(LiteralValue::Empty).is_none());
    assert!(is_num(&normalize_public_cell_read(LiteralValue::Int(2)).unwrap(), 2.0));
    assert!(matches!(normalize_public_cell_read(LiteralValue::Boolean(false)), Some(LiteralValue::Boolean(false))));
}

#[test]
fn deleting_inserted_rows_brings_everything_back() {
    let mut s = CellStore::new(None);
    s.load_base(at(0, 0), OverlayValue::Number(1.0f64.to_bits()));
    s.mirror_value_to_overlay(1, 4, 1, &num(4.0));
    s.write_computed_overlay_value_0based(at(6, 2), OverlayValue::Number(7.0f64.to_bits()));
    assert!(s.has_room_for_lines(1, Axis::Rows, 2, 3));
    s.insert_lines(1, Axis::Rows, 2, 3);
    assert!(is_num(&s.read_cell(at(0, 0)), 1.0));
    assert!(s.read_cell(at(3, 0)).is_empty());
    assert!(is_num(&s.read_cell(at(6, 0)), 4.0));
    assert!(is_num(&s.read_cell(at(9, 2)), 7.0));
    s.delete_lines(1, Axis::Rows, 2, 3);
    assert!(is_num(&s.read_cell(at(3, 0)), 4.0));
    assert!(is_num(&s.read_cell(at(6, 2)), 7.0));
    assert!(s.read_cell(at(9, 2)).is_empty());
}

#[test]
fn deleting_columns_takes_their_values() {
    let mut s = CellStore::new(None);
    s.mirror_value_to_overlay(1, 1, 1, &num(1.0));
    s.mirror_value_to_overlay(1, 1, 2, &num(2.0));
    s.mirror_value_to_overlay(1, 1, 4, &num(4.0));
    s.delete_lines(1, Axis::Columns, 1, 2);
    assert!(is_num(&s.get_cell_value(1, 1, 1).unwrap(), 1.0));
    assert!(is_num(&s.get_cell_value(1, 1, 2).unwrap(), 4.0));
    assert!(s.get_cell_value(1, 1, 4).is_none());
}

#[test]
fn lines_have_room_unless_something_would_leave_the_sheet() {
    let mut s = CellStore::new(None);
    s.load_base(CellRef { sheet_id: 1, row: u32::MAX, col: 0 }, OverlayValue::Boolean(true));
    assert!(!s.has_room_for_lines(1, Axis::Rows, 0, 1));
    assert!(s.has_room_for_lines(1, Axis::Rows, 0, 0));
    assert!(s.has_room_for_lines(1, Axis::Columns, 0, 5));
    assert!(s.has_room_for_lines(2, Axis::Rows, 0, 5));
}

#[test]
fn clearing_computed_values_by_region() {
    let mut s = CellStore::new(None);
    for r in 0..4u32 {
        s.write_computed_overlay_value_0based(at(r, 0), OverlayValue::Number(1.0f64.to_bits()));
        s.write_computed_overlay_value_0based(at(r, 1), OverlayValue::Number(1.0f64.to_bits()));
    }
    s.clear_computed_overlay_col_row_range(1, 0, 1, 3);
    assert!(s.read_computed_overlay_cell(1, 1, 1).is_some());
    assert!(s.read_computed_overlay_cell(1, 2, 1).is_none());
    assert!(s.read_computed_overlay_cell(1, 3, 1).is_none());
    assert!(s.read_computed_overlay_cell(1, 4, 1).is_some());
    s.clear_computed_overlay_after_row(1, 3);
    assert!(s.read_computed_overlay_cell(1, 4, 2).is_none());
    s.clear_computed_overlay_after_col(1, 1);
    assert!(s.read_computed_overlay_cell(1, 1, 2).is_none());
    assert!(s.read_computed_overlay_cell(1, 1, 1).is_some());
    s.clear_all_computed_overlays();
    assert!(s.read_computed_overlay_cell(1, 1, 1).is_none());
}

#[test]
fn clearing_listed_cells_in_a_region() {
    let mut s = CellStore::new(None);
    for r in 0..4u32 {
        s.write_computed_overlay_value_0based(at(r, 0), OverlayValue::Boolean(true));
    }
    let region = Region::rows_from(1, 2);
    s.clear_computed_overlay_cells_in_region(&vec![at(1, 0), at(2, 0)], &region);
    assert!(s.read_computed_overlay_cell(1, 2, 1).is_some());
    assert!(s.read_computed_overlay_cell(1, 3, 1).is_none());
    assert!(s.read_computed_overlay_cell(1, 4, 1).is_some());
}

#[test]
fn sheets_are_copied_and_dropped() {
    let mut s = CellStore::new(None);
    s.load_base(at(0, 0), OverlayValue::Number(1.0f64.to_bits()));
    s.mirror_value_to_overlay(1, 2, 2, &num(2.0));
    s.write_computed_overlay_value_0based(at(5, 5), OverlayValue::Boolean(true));
    assert!(s.is_blank_sheet(7));
    s.duplicate_sheet(1, 7);
    assert!(is_num(&s.get_cell_value(7, 1, 1).unwrap(), 1.0));
    assert!(is_num(&s.get_cell_value(7, 2, 2).unwrap(), 2.0));
    assert!(is_num(&s.get_cell_value(1, 2, 2).unwrap(), 2.0));
    assert!(s.get_cell_value(1, 6, 6).is_none());
    s.remove_sheet(1);
    assert!(s.is_blank_sheet(1));
    assert!(is_num(&s.get_cell_value(7, 2, 2).unwrap(), 2.0));
    assert!(s.extent(1).is_none());
}

#[test]
fn lanes_count_their_bytes() {
    let mut l = Lane::new();
    assert_eq!(l.bytes(), 0);
    assert!(l.set(5, OverlayValue::Text("abcd".to_string())).is_none());
    assert_eq!(l.bytes(), 36);
    assert!(l.set(5, OverlayValue::Boolean(true)).is_some());
    assert_eq!(l.bytes(), 32);
    assert!(l.remove(5).is_some());
    assert_eq!(l.bytes(), 0);
    assert_eq!(l.len(), 0);
}

#[test]
fn edits_are_folded_into_base_values() {
    let mut s = CellStore::new(None);
    s.load_base(at(0, 0), OverlayValue::Number(1.0f64.to_bits()));
    s.mirror_value_to_overlay(1, 1, 1, &num(3.0));
    s.mirror_value_to_overlay(1, 2, 1, &num(4.0));
    s.mirror_value_to_overlay(1, 1, 2, &num(5.0));
    assert!(!s.fold_edits(&Region::point(2, 0, 0)));
    assert_eq!(s.overlay_compactions(), 0);
    let column = Region { sheet_id: 1, rows: AxisRange::All, cols: AxisRange::Point(0) };
    assert!(s.fold_edits(&column));
    assert_eq!(s.overlay_compactions(), 1);
    assert!(s.read_delta_overlay_cell(1, 1, 1).is_none());
    assert!(is_num(&s.read_delta_overlay_cell(1, 1, 2).unwrap(), 5.0));
    assert!(is_num(&s.read_cell(at(0, 0)), 3.0));
    assert!(is_num(&s.read_cell(at(1, 0)), 4.0));
    s.clear_delta_overlay_cell(1, 1, 1);
    assert!(is_num(&s.read_cell(at(0, 0)), 3.0));
}
