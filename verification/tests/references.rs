use formualizer_eval::coord::{CellRef, cell_key};
use formualizer_eval::grid::Grid;
use formualizer_eval::lookup::{
    LookupAxis, LookupDecision, LookupFacts, LookupStart, LookupView, build_lookup_index, decide_lookup,
    lookup_view_contains_volatile,
};
use formualizer_eval::named::{
    DirectRead, NameScope, NameStep, NamedEntry, ReadStep, evaluate_named_array, evaluate_named_scalar,
    evaluate_vertex_recorded, finish_named_array, finish_named_scalar, read_named_array, read_named_scalar,
};
use formualizer_eval::reference_type::{
    AxisBound, ExternalRefKind, ReferenceType, SheetLocator, SpecialItem, TableReference, TableSpecifier,
};
use formualizer_eval::resolve::{
    AnchoredCell, Block, BlockView, BoundsQuestion, InspectFacts, NamedDefinition, OpenBounds, ReferenceFacts,
    ReferencePlan, SheetRange, SheetRef, TableEntry, inspect_reference, parse_a1_notation, read_block, read_range_values,
    reference_of, resolve_cell_reference, resolve_cell_reference_value, resolve_range_view, resolve_range_view_sheet_ref, resolve_shared_ref, resolve_sheet_locator_for_read, resolve_sheet_locator_for_write,
    resolve_table_part, view_block, view_cell,
};
use formualizer_eval::source_table::{
    SourceCache, SourceTablePlan, join_columns, source_scalar_error, source_table_error, source_table_to_range_view,
    whole_table,
};
use formualizer_eval::store::CellStore;
use formualizer_eval::used_bounds::{
    SheetVertex, UsedAxisBoundsCache, sheet_bounds, union_used_bounds, used_cols_for_rows, used_rows_for_columns,
};
use formualizer_eval::value::{ErrorKind, ExcelError, LiteralValue};
use formualizer_eval::vertex::VertexKind;
use rustc_hash::FxHashSet;

fn s(t: &str) -> String {
    t.to_string()
}

fn at(row: u32, col: u32) -> CellRef {
    CellRef { sheet_id: 1, row, col }
}

fn num(x: f64) -> LiteralValue {
    LiteralValue::Number(x.to_bits())
}

fn cell(sheet: Option<&str>, row: u32, col: u32) -> ReferenceType {
    ReferenceType::Cell { sheet: sheet.map(s), row, col, row_abs: true, col_abs: false }
}

fn range(sr: Option<u32>, sc: Option<u32>, er: Option<u32>, ec: Option<u32>) -> ReferenceType {
    ReferenceType::Range {
        sheet: None,
        start_row: sr,
        start_col: sc,
        end_row: er,
        end_col: ec,
        start_row_abs: false,
        start_col_abs: false,
        end_row_abs: false,
        end_col_abs: false,
    }
}

fn facts() -> ReferenceFacts {
    ReferenceFacts {
        current_id: Some(1),
        named_id: None,
        accepted: true,
        name: None,
        source_scalar: false,
        table: None,
        source_table: false,
    }
}

#[test]
fn references_find_their_sheet() {
    let r = resolve_shared_ref(&cell(None, 3, 2), true, Some(1), None).unwrap();
    assert_eq!(r, SheetRef::Cell(AnchoredCell { cell: at(2, 1), row_abs: true, col_abs: false }));
    let named = resolve_shared_ref(&cell(Some("Two"), 3, 2), true, Some(1), Some(2)).unwrap();
    assert!(matches!(named, SheetRef::Cell(a) if a.cell.sheet_id == 2));
    for bad in [
        resolve_shared_ref(&cell(None, 0, 2), true, Some(1), None),
        resolve_shared_ref(&cell(None, 1, 0), true, Some(1), None),
        resolve_shared_ref(&cell(Some("Two"), 1, 1), true, Some(1), None),
        resolve_shared_ref(&cell(None, 1, 1), true, None, None),
        resolve_shared_ref(&range(Some(0), None, None, None), true, Some(1), None),
        resolve_shared_ref(&range(Some(3), None, Some(1), None), false, Some(1), None),
        resolve_shared_ref(&ReferenceType::NamedRange(s("n")), true, Some(1), None),
    ] {
        assert_eq!(bad.unwrap_err().kind, ErrorKind::Ref);
    }
}

#[test]
fn references_survive_a_round_trip() {
    let r = SheetRef::Range(SheetRange {
        sheet_id: 1,
        start_row: Some(AxisBound { index: 4, abs: true }),
        start_col: None,
        end_row: Some(AxisBound { index: 9, abs: false }),
        end_col: None,
    });
    let back = resolve_shared_ref(&reference_of(None, &r), true, Some(1), None).unwrap();
    assert_eq!(back, r);
    let c = SheetRef::Cell(AnchoredCell { cell: at(0, 16000), row_abs: false, col_abs: true });
    let back = resolve_shared_ref(&reference_of(Some(s("S")), &c), true, Some(9), Some(1)).unwrap();
    assert_eq!(back, c);
}

#[test]
fn open_bounds_are_filled_in_by_what_is_used() {
    let mut whole_column = OpenBounds { start_row: None, start_col: Some(2), end_row: None, end_col: Some(2) };
    assert_eq!(whole_column.ask(), BoundsQuestion::RowsOf { start_col: 2, end_col: 2 });
    whole_column.supply_rows(Some((5, 40)), 1000);
    assert_eq!(whole_column.ask(), BoundsQuestion::Settled);
    assert_eq!(
        whole_column.settle(1),
        Block { sheet_id: 1, start_row: 1, start_col: 2, end_row: 40, end_col: 2 }
    );
    let mut open_end = OpenBounds { start_row: Some(3), start_col: Some(2), end_row: None, end_col: None };
    assert_eq!(open_end.ask(), BoundsQuestion::RowsOf { start_col: 2, end_col: 2 });
    open_end.supply_rows(None, 1000);
    assert_eq!(open_end.ask(), BoundsQuestion::ColsOf { start_row: 3, end_row: 1000 });
    open_end.supply_cols(Some((1, 7)), 500);
    assert_eq!(open_end.settle(1), Block { sheet_id: 1, start_row: 3, start_col: 2, end_row: 1000, end_col: 7 });
}

#[test]
fn blocks_are_read_or_windowed() {
    let b = Block { sheet_id: 1, start_row: 2, start_col: 1, end_row: 3, end_col: 2 };
    assert_eq!(view_block(b, true, 4, true), BlockView::Read(b));
    assert_eq!(
        view_block(b, true, 3, true),
        BlockView::Window { start_row: 1, start_col: 0, end_row: 2, end_col: 1 }
    );
    assert_eq!(view_block(b, false, 4, false), BlockView::Nothing);
    let empty = Block { sheet_id: 1, start_row: 4, start_col: 1, end_row: 3, end_col: 2 };
    assert_eq!(view_block(empty, true, 4, true), BlockView::Nothing);
    assert_eq!(view_block(empty, false, 4, true), BlockView::EmptyWindow);
    assert_eq!(
        read_range_values(b, true),
        BlockView::Window { start_row: 1, start_col: 0, end_row: 2, end_col: 1 }
    );
    let mut store = CellStore::new(None);
    store.mirror_value_to_overlay(1, 3, 2, &num(6.0));
    let g = Grid::new(store);
    let rows = read_block(&g, b);
    assert_eq!((rows.len(), rows[0].len()), (2, 2));
    assert!(rows[0][0].is_empty());
    assert!(rows[1][1].same(&num(6.0)));
}

#[test]
fn tables_are_cut_by_their_specifier() {
    let t = TableEntry {
        start: at(2, 1),
        end: at(9, 3),
        header_row: true,
        totals_row: true,
        first_column: Some(2),
        last_column: Some(0),
    };
    let part = |sp: TableSpecifier| match resolve_table_part(&t, &Some(sp)) {
        Ok(ReferencePlan::TablePart { start_row, start_col, end_row, end_col, .. }) => {
            Some((start_row, start_col, end_row, end_col))
        },
        _ => None,
    };
    assert_eq!(part(TableSpecifier::All), Some((2, 1, 9, 3)));
    assert_eq!(part(TableSpecifier::Data), Some((3, 1, 8, 3)));
    assert_eq!(part(TableSpecifier::Headers), Some((2, 1, 2, 3)));
    assert_eq!(part(TableSpecifier::SpecialItem(SpecialItem::Totals)), Some((9, 1, 9, 3)));
    assert_eq!(part(TableSpecifier::Column(s("c"))), Some((3, 3, 8, 3)));
    assert_eq!(part(TableSpecifier::ColumnRange(s("c"), s("a"))), Some((3, 1, 8, 3)));
    let bare = TableEntry { header_row: false, totals_row: false, first_column: None, ..t };
    assert!(matches!(
        resolve_table_part(&bare, &Some(TableSpecifier::Headers)),
        Ok(ReferencePlan::NoPart { sheet_id: 1 })
    ));
    let errors = [
        (None, ErrorKind::NImpl, "Table reference without specifier is unsupported"),
        (Some(TableSpecifier::Column(s("x"))), ErrorKind::Ref, "Column refers to unknown table column"),
        (
            Some(TableSpecifier::ColumnRange(s("x"), s("y"))),
            ErrorKind::Ref,
            "Column range refers to unknown column(s)",
        ),
        (
            Some(TableSpecifier::SpecialItem(SpecialItem::ThisRow)),
            ErrorKind::NImpl,
            "@ (This Row) requires table-aware context; not yet supported",
        ),
        (Some(TableSpecifier::Row), ErrorKind::NImpl, "Complex structured references not yet supported"),
        (Some(TableSpecifier::Combination), ErrorKind::NImpl, "Complex structured references not yet supported"),
    ];
    for (sp, kind, message) in errors {
        let e = resolve_table_part(&bare, &sp).unwrap_err();
        assert_eq!(e.kind, kind);
        assert_eq!(e.message.unwrap(), message);
    }
}

#[test]
fn references_are_planned_by_what_the_workbook_knows() {
    assert!(matches!(resolve_range_view(&cell(None, 3, 2), &facts()), Ok(ReferencePlan::Cell(c)) if c == at(2, 1)));
    match resolve_range_view(&range(Some(3), Some(2), None, None), &facts()) {
        Ok(ReferencePlan::Range { sheet_id, bounds }) => {
            assert_eq!(sheet_id, 1);
            assert_eq!(bounds.start_row, Some(3));
            assert_eq!(bounds.end_row, None);
        },
        _ => panic!("a range"),
    }
    let name = ReferenceType::NamedRange(s("n"));
    let mut f = facts();
    f.name = Some(NamedDefinition::Cell(at(4, 4)));
    assert!(matches!(resolve_range_view(&name, &f), Ok(ReferencePlan::Cell(c)) if c == at(4, 4)));
    f.name = Some(NamedDefinition::Literal(num(2.0)));
    assert!(matches!(resolve_range_view(&name, &f), Ok(ReferencePlan::Value(v)) if v.same(&num(2.0))));
    f.name = None;
    f.source_scalar = true;
    assert!(matches!(resolve_range_view(&name, &f), Ok(ReferencePlan::SourceScalar(n)) if n == "n"));
    f.source_scalar = false;
    assert!(matches!(resolve_range_view(&name, &f), Ok(ReferencePlan::ForeignName(n)) if n == "n"));
    let table = ReferenceType::Table(TableReference { name: s("T"), specifier: Some(TableSpecifier::Data) });
    assert!(matches!(resolve_range_view(&table, &facts()), Ok(ReferencePlan::ForeignTable(n)) if n == "T"));
    f.source_table = true;
    assert!(matches!(resolve_range_view(&table, &f), Ok(ReferencePlan::SourceTable { .. })));
}

#[test]
fn references_are_inspected_without_reading() {
    let f = InspectFacts {
        sheet_id: Some(1),
        sheet_index: Some(2),
        span_len: Some(3),
        current_id: Some(1),
        name: Some(NamedDefinition::Range { start: at(1, 1), end: at(2, 2) }),
        target_index: Some(4),
        table_start: None,
    };
    let c = inspect_reference(&cell(None, 3, 2), &f).unwrap();
    assert_eq!((c.first_sheet_index, c.sheet_count, c.first_cell), (Some(2), Some(1), Some(at(2, 1))));
    let three = ReferenceType::Cell3D { sheet_first: s("A"), sheet_last: s("C"), row: 1, col: 1 };
    assert_eq!(inspect_reference(&three, &f).unwrap().sheet_count, Some(3));
    let n = inspect_reference(&ReferenceType::NamedRange(s("n")), &f).unwrap();
    assert_eq!((n.first_sheet_index, n.first_cell), (Some(4), Some(at(1, 1))));
    assert_eq!(inspect_reference(&cell(None, 0, 2), &f).unwrap_err().kind, ErrorKind::Ref);
    let outside = ReferenceType::External { raw: s("[1]S!A1"), kind: ExternalRefKind::Cell };
    assert!(inspect_reference(&outside, &f).is_err());
}

#[test]
fn sheets_are_located_for_reading() {
    assert_eq!(resolve_sheet_locator_for_read(&SheetLocator::Id(7), None, None).unwrap(), 7);
    assert_eq!(resolve_sheet_locator_for_read(&SheetLocator::Current, Some(3), None).unwrap(), 3);
    assert_eq!(resolve_sheet_locator_for_read(&SheetLocator::Name(s("x")), Some(3), Some(4)).unwrap(), 4);
    assert!(resolve_sheet_locator_for_read(&SheetLocator::Name(s("x")), Some(3), None).is_err());
}

#[test]
fn sheets_are_located_for_writing() {
    assert_eq!(resolve_sheet_locator_for_write(&SheetLocator::Id(7), 3, 4), 7);
    assert_eq!(resolve_sheet_locator_for_write(&SheetLocator::Current, 3, 4), 3);
    assert_eq!(resolve_sheet_locator_for_write(&SheetLocator::Name(s("x")), 3, 4), 4);
}

#[test]
fn resolved_references_are_read_as_they_are_written() {
    let c = SheetRef::Cell(AnchoredCell { cell: at(2, 1), row_abs: true, col_abs: false });
    assert!(matches!(resolve_range_view_sheet_ref(None, &c, &facts()), Ok(ReferencePlan::Cell(c)) if c == at(2, 1)));
    let unknown = resolve_range_view_sheet_ref(Some(s("x")), &c, &ReferenceFacts { named_id: None, ..facts() });
    assert_eq!(unknown.unwrap_err().kind, ErrorKind::Ref);
}

#[test]
fn cells_are_read_by_reference() {
    let mut store = CellStore::new(None);
    store.mirror_value_to_overlay(1, 3, 2, &num(6.0));
    assert!(resolve_cell_reference_value(&store, Some(1), 3, 2).unwrap().same(&num(6.0)));
    assert!(resolve_cell_reference_value(&store, Some(1), 4, 2).unwrap().is_empty());
    assert_eq!(resolve_cell_reference_value(&store, None, 3, 2).unwrap_err().kind, ErrorKind::Ref);
    assert!(resolve_cell_reference(&store, Some(Some(1)), 3, 2).unwrap().same(&num(6.0)));
    assert!(resolve_cell_reference(&store, Some(Some(1)), 4, 2).unwrap().same(&num(0.0)));
    assert!(resolve_cell_reference(&store, Some(None), 3, 2).unwrap().same(&num(0.0)));
    let e = resolve_cell_reference(&store, None, 3, 2).unwrap_err();
    assert_eq!(e.message.unwrap(), "Unqualified cell reference resolved without sheet context");
}

#[test]
fn addresses_are_read_with_their_sheet() {
    assert_eq!(parse_a1_notation("Two!B3", "One", Ok((3, 2))).unwrap(), (s("Two"), 3, 2));
    assert_eq!(parse_a1_notation("B3", "One", Ok((3, 2))).unwrap(), (s("One"), 3, 2));
    let e = parse_a1_notation("Two!??", "One", Err(s("no digits"))).unwrap_err();
    assert_eq!(e.kind, ErrorKind::Ref);
    assert_eq!(e.message.unwrap(), "Invalid cell reference `??`: no digits");
}

#[test]
fn used_bounds_join_cells_and_formulas() {
    let mut store = CellStore::new(None);
    store.mirror_value_to_overlay(1, 4, 2, &num(1.0));
    store.mirror_value_to_overlay(1, 9, 3, &num(1.0));
    let vertices = vec![SheetVertex { kind: VertexKind::FormulaScalar, row: 19, col: 1 }];
    let mut cache = UsedAxisBoundsCache::new(0);
    assert_eq!(used_rows_for_columns(&mut cache, 1, &store, &vertices, None, 1, 2, 2), Some((4, 20)));
    assert_eq!(used_rows_for_columns(&mut cache, 1, &store, &Vec::new(), None, 1, 2, 2), Some((4, 20)));
    assert_eq!(used_rows_for_columns(&mut cache, 2, &store, &Vec::new(), None, 1, 2, 2), Some((4, 4)));
    assert_eq!(used_rows_for_columns(&mut cache, 2, &store, &Vec::new(), None, 1, 8, 9), None);
    assert_eq!(used_cols_for_rows(&mut cache, 2, &store, &vertices, None, 1, 1, 10), Some((2, 3)));
    assert_eq!(union_used_bounds(Some((3, 5)), Some((1, 4))), Some((1, 5)));
    assert_eq!(union_used_bounds(None, Some((1, 4))), Some((1, 4)));
    assert_eq!(union_used_bounds(None, None), None);
    assert_eq!(sheet_bounds(true), Some((1_048_576, 16_384)));
    assert_eq!(sheet_bounds(false), None);
}

#[test]
fn columns_of_a_source_are_found_in_any_case() {
    let columns = vec![s("Name"), s("\u{c4}RGER"), s("Total")];
    let sp = |a: &str, b: &str| Some(TableSpecifier::ColumnRange(s(a), s(b)));
    assert!(matches!(
        source_table_to_range_view(&columns, &sp(" total ", "\u{e4}rger")),
        Ok(SourceTablePlan::Columns { first: 1, last: 2 })
    ));
    let e = source_table_to_range_view(&columns, &sp("total", "none")).unwrap_err();
    assert_eq!(e.message.unwrap(), "Column range refers to unknown column(s)");
    let one = source_table_to_range_view(&columns, &Some(TableSpecifier::Column(s("  Any "))));
    assert!(matches!(one, Ok(SourceTablePlan::Column(c)) if c == "Any"));
    for odd in ["@", "[a]", "a,b"] {
        let e = source_table_to_range_view(&columns, &Some(TableSpecifier::Column(s(odd)))).unwrap_err();
        assert_eq!(e.kind, ErrorKind::NImpl);
    }
    assert!(matches!(source_table_to_range_view(&columns, &Some(TableSpecifier::All)), Ok(SourceTablePlan::All)));
    assert!(source_table_to_range_view(&columns, &None).is_err());
}

#[test]
fn columns_are_joined_to_rows() {
    let rows = join_columns(2, &vec![vec![num(1.0), num(2.0)], vec![num(3.0)]]);
    assert_eq!(rows.len(), 2);
    assert!(rows[0][1].same(&num(3.0)));
    assert!(rows[1][0].same(&num(2.0)));
    assert!(rows[1][1].is_empty());
    let table = whole_table(&Some(vec![vec![num(0.0)]]), &None, &Some(vec![vec![num(9.0)]]));
    assert_eq!(table.len(), 2);
    assert!(table[1][0].same(&num(9.0)));
}

#[test]
fn values_of_a_source_are_kept_by_version() {
    let mut c = SourceCache::new();
    let name = s("fx");
    assert!(c.lookup(&name, Some(1)).is_none());
    assert!(c.answered(&name, Some(1), Ok(num(4.0))).unwrap().same(&num(4.0)));
    assert!(c.lookup(&name, Some(1)).unwrap().same(&num(4.0)));
    assert!(c.lookup(&name, Some(2)).is_none());
    assert!(c.lookup(&s("fy"), Some(1)).is_none());
    c.clear_source_cache();
    assert!(c.lookup(&name, Some(1)).is_none());
    let unknown = source_scalar_error("fx", ExcelError::new(ErrorKind::Name));
    assert_eq!(unknown.kind, ErrorKind::Ref);
    assert_eq!(unknown.message.unwrap(), "Unresolved source scalar: fx");
    let table = source_table_error("t", ExcelError::new(ErrorKind::NImpl));
    assert_eq!(table.message.unwrap(), "Unresolved source table: t");
    assert_eq!(source_table_error("fx", ExcelError::new(ErrorKind::Na)).kind, ErrorKind::Na);
}

fn entry(definition: NamedDefinition) -> NamedEntry {
    NamedEntry { definition, scope: NameScope::Workbook }
}

fn named_grid() -> Grid {
    let mut store = CellStore::new(None);
    store.mirror_value_to_overlay(1, 1, 1, &num(1.0));
    store.mirror_value_to_overlay(1, 2, 1, &num(2.0));
    let mut g = Grid::new(store);
    g.add_detached_vertex(5, VertexKind::NamedScalar);
    g
}

#[test]
fn names_come_to_their_values() {
    let mut g = named_grid();
    let e = entry(NamedDefinition::Cell(at(1, 0)));
    assert!(matches!(read_named_scalar(&g, 5, Some(&e), 1), Ok(NameStep::Known(v)) if v.same(&num(2.0))));
    let missing = read_named_scalar(&g, 5, None, 1).unwrap_err();
    assert_eq!(missing.kind, ErrorKind::Name);
    assert_eq!(missing.message.unwrap(), "Named range metadata missing");
    let r = entry(NamedDefinition::Range { start: at(0, 0), end: at(1, 0) });
    let scalar = read_named_scalar(&g, 5, Some(&r), 1).unwrap_err();
    assert_eq!(scalar.message.unwrap(), "Range-valued name evaluated as scalar");
    match read_named_array(&g, 5, Some(&r), 1, 10) {
        Ok(NameStep::Known(LiteralValue::Array(rows))) => {
            assert_eq!(rows.len(), 2);
            assert!(rows[1][0].same(&num(2.0)));
        },
        _ => panic!("the range holds two values"),
    }
    let large = read_named_array(&g, 5, Some(&r), 1, 1).unwrap_err();
    assert_eq!(large.message.unwrap(), "Named range too large to materialize as an array");
    let turned = entry(NamedDefinition::Range { start: at(1, 0), end: at(0, 0) });
    assert_eq!(
        read_named_array(&g, 5, Some(&turned), 1, 10).unwrap_err().message.unwrap(),
        "Invalid named range bounds"
    );
    let wide = entry(NamedDefinition::Range { start: at(0, 0), end: CellRef { sheet_id: 2, row: 1, col: 0 } });
    assert_eq!(
        read_named_array(&g, 5, Some(&wide), 1, 10).unwrap_err().message.unwrap(),
        "Named range cannot span sheets"
    );
    let formula = entry(NamedDefinition::Formula(None));
    assert!(matches!(
        evaluate_named_scalar(&mut g, 5, Some(&formula), 3),
        Ok(NameStep::Evaluate { sheet_id: 3, cell: None })
    ));
    assert!(finish_named_scalar(&mut g, 5, Ok(num(8.0))).same(&num(8.0)));
    assert!(g.vertex_value(5).unwrap().same(&num(8.0)));
    assert!(evaluate_named_array(&mut g, 5, Some(&r), 1, 10).is_ok());
    assert!(finish_named_array(&mut g, 5, Ok(num(7.0))).same(&LiteralValue::Array(vec![vec![num(7.0)]])));
}

#[test]
fn direct_reads_of_names_are_recorded() {
    let mut g = named_grid();
    g.add_vertex(6, VertexKind::FormulaScalar, at(7, 7));
    let e = entry(NamedDefinition::Cell(at(1, 0)));
    let (r, read) = evaluate_vertex_recorded(&g, 5, true, false, Some(&e), 1, 10);
    assert!(matches!(r, Ok(ReadStep::Known(v)) if v.same(&num(2.0))));
    assert_eq!(read, DirectRead::Cell(at(1, 0)));
    let (r, read) = evaluate_vertex_recorded(&g, 6, true, true, None, 1, 10);
    assert!(matches!(r, Ok(ReadStep::Evaluate)));
    assert_eq!(read, DirectRead::Nothing);
}

#[test]
fn lookups_build_an_index_when_it_pays() {
    let view = LookupView { rows: 100, cols: 2, start_row: 0, start_col: 0, end_row: 99, end_col: 1 };
    match build_lookup_index(view, LookupAxis::ColumnInView(1), Some(1), 5) {
        LookupStart::Find { key, len } => {
            assert_eq!(len, 100);
            assert_eq!((key.sheet_id, key.end_row, key.snapshot_id), (1, 99, 5));
        },
        _ => panic!("the column is long enough"),
    }
    assert_eq!(build_lookup_index(view, LookupAxis::ColumnInView(2), Some(1), 5), LookupStart::TooSmall);
    assert_eq!(build_lookup_index(view, LookupAxis::RowInView(0), Some(1), 5), LookupStart::TooSmall);
    assert_eq!(build_lookup_index(view, LookupAxis::ColumnInView(0), None, 5), LookupStart::NoKey);
    let mut volatile: FxHashSet<u128> = FxHashSet::default();
    volatile.insert(cell_key(at(50, 1)));
    assert!(lookup_view_contains_volatile(&volatile, 1, view));
    assert!(!lookup_view_contains_volatile(&volatile, 2, view));
    let all = LookupFacts {
        kept: false,
        exceeds_cap: false,
        should_build: true,
        known_volatile: false,
        contains_volatile: false,
    };
    assert_eq!(decide_lookup(all), LookupDecision::Build);
    assert_eq!(decide_lookup(LookupFacts { kept: true, ..all }), LookupDecision::UseKept);
    assert_eq!(decide_lookup(LookupFacts { exceeds_cap: true, ..all }), LookupDecision::SkipCap);
    assert_eq!(decide_lookup(LookupFacts { should_build: false, ..all }), LookupDecision::Wait);
    assert_eq!(
        decide_lookup(LookupFacts { contains_volatile: true, ..all }),
        LookupDecision::SkipVolatile { mark: true }
    );
}

#[test]
fn a_single_cell_is_always_handed_out() {
    let one = Block { sheet_id: 1, start_row: 3, start_col: 2, end_row: 3, end_col: 2 };
    assert_eq!(view_cell(at(2, 1), true, true), BlockView::Read(one));
    assert_eq!(view_cell(at(2, 1), false, false), BlockView::Read(one));
    assert_eq!(
        view_cell(at(2, 1), false, true),
        BlockView::Window { start_row: 2, start_col: 1, end_row: 2, end_col: 1 }
    );
}
