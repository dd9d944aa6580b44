use formualizer_eval::ast::{AstNode, is_ast_volatile_with_provider, substitute_literal_slots_for_template_placement};
use formualizer_eval::coord::{CellRef, cell_key, key_cell, rectangle};
use formualizer_eval::named::NameScope;
use formualizer_eval::names::{NameKey, named_ranges_snapshot, named_ranges_snapshot_for_sheet};
use formualizer_eval::number::{int_to_double, same_double};
use formualizer_eval::sort::{group_by_key, sort_order, sorted_distinct};
use formualizer_eval::text::{cell_address, col_to_letters, formula_text, push_decimal, split_address, text_less, trim_text};
use formualizer_eval::text_index::TextIndex;
use formualizer_eval::value::{ErrorExtra, ErrorKind, ExcelError, LiteralValue};

fn s(t: &str) -> String {
    t.to_string()
}

#[test]
fn integers_become_the_nearest_double() {
    let cases: [i64; 14] = [
        0,
        1,
        -1,
        2,
        3,
        1000,
        -7,
        i64::MAX,
        i64::MIN,
        (1 << 53) + 1,
        (1 << 53) + 3,
        -(1 << 60) - 129,
        (1 << 54) - 1,
        123456789012345678,
    ];
    for i in cases {
        assert_eq!(int_to_double(i), (i as f64).to_bits(), "{}", i);
    }
}

#[test]
fn doubles_compare_as_numbers() {
    assert!(same_double(0.0f64.to_bits(), (-0.0f64).to_bits()));
    assert!(same_double(1.5f64.to_bits(), 1.5f64.to_bits()));
    assert!(!same_double(f64::NAN.to_bits(), f64::NAN.to_bits()));
    assert!(!same_double(1.0f64.to_bits(), 2.0f64.to_bits()));
    assert!(same_double(f64::INFINITY.to_bits(), f64::INFINITY.to_bits()));
    assert!(!same_double(f64::INFINITY.to_bits(), f64::NEG_INFINITY.to_bits()));
}

#[test]
fn errors_carry_kind_message_and_extra() {
    let e = ExcelError::new(ErrorKind::Spill)
        .with_message("blocked")
        .with_extra(ErrorExtra::Spill { expected_rows: 2, expected_cols: 3 });
    let f = e.duplicate();
    assert!(e.same(&f));
    assert_eq!(f.kind, ErrorKind::Spill);
    assert_eq!(f.message, Some(s("blocked")));
    assert_eq!(f.extra, ErrorExtra::Spill { expected_rows: 2, expected_cols: 3 });
    assert!(!e.same(&ExcelError::new(ErrorKind::Spill)));
}

#[test]
fn values_compare_by_kind_and_content() {
    let a = LiteralValue::Array(vec![vec![LiteralValue::Int(1), LiteralValue::Text(s("x"))]]);
    assert!(a.same(&a.duplicate()));
    assert!(!a.same(&LiteralValue::Array(vec![vec![LiteralValue::Int(1)]])));
    assert!(!LiteralValue::Int(1).same(&LiteralValue::Boolean(true)));
    assert!(LiteralValue::Empty.is_empty());
    assert!(!LiteralValue::Int(0).is_empty());
    assert!(!LiteralValue::Number(f64::NAN.to_bits()).same(&LiteralValue::Number(f64::NAN.to_bits())));
    assert!(LiteralValue::Number(0.0f64.to_bits()).same(&LiteralValue::Number((-0.0f64).to_bits())));
}

#[test]
fn column_letters_count_in_base_twenty_six() {
    assert_eq!(col_to_letters(1), "A");
    assert_eq!(col_to_letters(26), "Z");
    assert_eq!(col_to_letters(27), "AA");
    assert_eq!(col_to_letters(52), "AZ");
    assert_eq!(col_to_letters(702), "ZZ");
    assert_eq!(col_to_letters(703), "AAA");
    assert_eq!(col_to_letters(16384), "XFD");
}

#[test]
fn column_letters_are_distinct_for_distinct_columns() {
    let mut seen: Vec<String> = Vec::new();
    for c in 1..800u32 {
        let t = col_to_letters(c);
        assert!(!seen.contains(&t));
        seen.push(t);
    }
}

#[test]
fn addresses_are_written_and_split() {
    assert_eq!(cell_address("Data", 12, 28), "Data!AB12");
    assert_eq!(cell_address("Data", 3, 0), "Data!3");
    assert_eq!(split_address("Data!AB12"), (Some(s("Data")), s("AB12")));
    assert_eq!(split_address("AB12"), (None, s("AB12")));
    assert_eq!(split_address("a!b!c"), (Some(s("a")), s("b!c")));
}

#[test]
fn formulas_start_with_an_equals_sign() {
    assert_eq!(formula_text("A1+1"), "=A1+1");
    assert_eq!(formula_text("=A1+1"), "=A1+1");
    assert_eq!(formula_text(""), "=");
}

#[test]
fn decimal_digits_are_appended() {
    let mut out = s("n");
    push_decimal(&mut out, 0);
    push_decimal(&mut out, u64::MAX);
    assert_eq!(out, "n018446744073709551615");
}

#[test]
fn trimming_removes_white_space_at_both_ends_only() {
    assert_eq!(trim_text(" \t a b \u{a0}\n"), "a b");
    assert_eq!(trim_text("   "), "");
    assert_eq!(trim_text("x"), "x");
    let once = trim_text("  y  ");
    assert_eq!(trim_text(&once), once);
}

#[test]
fn texts_are_ordered_by_their_characters() {
    assert!(text_less(&s("a"), &s("b")));
    assert!(text_less(&s("a"), &s("aa")));
    assert!(!text_less(&s("b"), &s("aa")));
    assert!(!text_less(&s("a"), &s("a")));
    assert!(text_less(&s("Z"), &s("a")));
    assert!(text_less(&s("z"), &s("\u{e9}")));
}

#[test]
fn cells_have_keys() {
    let c = CellRef { sheet_id: 65535, row: u32::MAX, col: 7 };
    assert_eq!(key_cell(cell_key(c)), c);
    let d = CellRef { sheet_id: 0, row: 7, col: u32::MAX };
    assert_eq!(key_cell(cell_key(d)), d);
    assert_ne!(cell_key(c), cell_key(d));
}

#[test]
fn rectangles_are_listed_row_by_row() {
    let a = CellRef { sheet_id: 1, row: 4, col: 6 };
    let cells = rectangle(a, 2, 3);
    let got: Vec<(u32, u32)> = cells.iter().map(|c| (c.row, c.col)).collect();
    assert_eq!(got, vec![(4, 6), (4, 7), (4, 8), (5, 6), (5, 7), (5, 8)]);
    assert_eq!(rectangle(a, 0, 3).len(), 0);
}

#[test]
fn sorting_is_stable_and_by_both_keys() {
    assert_eq!(sort_order(&vec![(2, 0), (1, 5), (2, 0), (1, 4)]), vec![3, 1, 0, 2]);
    assert_eq!(sorted_distinct(&vec![5, 1, 5, 3, 1]), vec![1, 3, 5]);
    assert_eq!(sorted_distinct(&Vec::new()), Vec::<u32>::new());
}

#[test]
fn grouping_gathers_equal_keys() {
    let groups = group_by_key(&vec![(1, 1), (0, 9), (1, 1), (0, 9), (0, 8)]);
    assert_eq!(groups, vec![vec![4], vec![1, 3], vec![0, 2]]);
}

#[test]
fn names_are_listed_workbook_first_and_by_name() {
    let names = vec![
        NameKey { name: s("b"), scope: NameScope::Sheet(2) },
        NameKey { name: s("z"), scope: NameScope::Workbook },
        NameKey { name: s("a"), scope: NameScope::Sheet(2) },
        NameKey { name: s("a"), scope: NameScope::Workbook },
        NameKey { name: s("c"), scope: NameScope::Sheet(1) },
    ];
    let order = named_ranges_snapshot(&names);
    assert_eq!(order, vec![3, 1, 4, 2, 0]);
    assert_eq!(named_ranges_snapshot_for_sheet(&names, &order, 1), vec![3, 1, 4]);
    assert_eq!(named_ranges_snapshot_for_sheet(&names, &order, 2), vec![3, 1, 2, 0]);
}

#[test]
fn interned_texts_keep_their_number() {
    let mut t = TextIndex::new();
    assert_eq!(t.intern("one"), 0);
    assert_eq!(t.intern("two"), 1);
    assert_eq!(t.intern("one"), 0);
    assert_eq!(t.len(), 2);
    assert_eq!(t.find("two"), Some(1));
    assert_eq!(t.find("Two"), None);
    assert_eq!(t.text(1), "two");
    for i in 0..500 {
        let n = t.intern(&format!("t{}", i));
        assert_eq!(n, 2 + i);
    }
    assert_eq!(t.find("t499"), Some(501));
}

fn lit(i: i64) -> AstNode {
    AstNode::Literal(LiteralValue::Int(i))
}

#[test]
fn literal_slots_are_filled_from_left_to_right() {
    let ast = AstNode::BinaryOp {
        op: s("+"),
        left: Box::new(lit(1)),
        right: Box::new(AstNode::Function {
            name: s("SUM"),
            args: vec![
                AstNode::UnaryOp { op: s("-"), expr: Box::new(lit(2)) },
                AstNode::Array(vec![vec![lit(3)]]),
                lit(4),
            ],
        }),
    };
    let binding = vec![LiteralValue::Int(10), LiteralValue::Int(20)];
    let out = substitute_literal_slots_for_template_placement(&ast, &binding);
    assert_eq!(
        format!("{:?}", out),
        format!(
            "{:?}",
            AstNode::BinaryOp {
                op: s("+"),
                left: Box::new(lit(10)),
                right: Box::new(AstNode::Function {
                    name: s("SUM"),
                    args: vec![
                        AstNode::UnaryOp { op: s("-"), expr: Box::new(lit(20)) },
                        AstNode::Array(vec![vec![lit(3)]]),
                        AstNode::Literal(LiteralValue::Empty),
                    ],
                }),
            }
        )
    );
}

#[test]
fn volatile_functions_are_found_below() {
    let volatile = vec![s("RAND"), s("NOW")];
    let rand = AstNode::Function { name: s("RAND"), args: Vec::new() };
    let sum = AstNode::Function { name: s("SUM"), args: vec![lit(1), rand] };
    assert!(is_ast_volatile_with_provider(&sum, &volatile));
    assert!(!is_ast_volatile_with_provider(&sum, &Vec::new()));
    assert!(!is_ast_volatile_with_provider(&lit(1), &volatile));
    let table = AstNode::Array(vec![vec![lit(1), AstNode::Function { name: s("NOW"), args: Vec::new() }]]);
    assert!(is_ast_volatile_with_provider(&table, &volatile));
    assert!(is_ast_volatile_with_provider(&table.duplicate(), &volatile));
}

#[test]
fn white_space_is_what_unicode_says() {
    let white: Vec<char> = (0..0x3100u32).filter_map(char::from_u32).filter(|c| trim_text(&c.to_string()).is_empty()).collect();
    let expected = "\t\n\u{b}\u{c}\r \u{85}\u{a0}\u{1680}\u{2000}\u{2001}\u{2002}\u{2003}\u{2004}\u{2005}\u{2006}\u{2007}\u{2008}\u{2009}\u{200a}\u{2028}\u{2029}\u{202f}\u{205f}\u{3000}";
    assert_eq!(white, expected.chars().collect::<Vec<char>>());
}
