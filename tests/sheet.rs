use minisheet::dtypes::{CellLoc, CellVal, FormToken, Number, Op, TknLink};
use minisheet::parsing::{parse_formula_expr, AddressSyntaxError};
use minisheet::sheet::Sheet;

fn loc(col: &str, row: usize) -> CellLoc {
    CellLoc { col: String::from(col), row }
}

fn number_value(n: &Number) -> Option<f64> {
    match n {
        Number::Int(v) => Some(*v as f64),
        Number::Real(b) => Some(f64::from_bits(*b)),
        Number::Decimal(s) => s.parse::<f64>().ok(),
    }
}

fn reduce(link: &TknLink) -> Option<f64> {
    let node = link.as_ref()?;
    match &node.token {
        FormToken::Num(n) => number_value(n),
        FormToken::Loc(_) => None,
        FormToken::BinOp(op) => {
            let l = reduce(&node.left)?;
            let r = reduce(&node.right)?;
            match op {
                Op::Plus => Some(l + r),
                Op::Minus => Some(l - r),
            }
        }
    }
}

fn evaluate(sheet: &Sheet, text: &str) -> Option<f64> {
    let tree = sheet.eval_formula_cell(&CellVal::Formula(String::from(text)))?;
    reduce(&tree.root)
}

fn int_at(sheet: &Sheet, col: &str, row: usize) -> Option<i64> {
    match sheet.get_cell(loc(col, row)) {
        Some(CellVal::Int(v)) => Some(v),
        _ => None,
    }
}

#[test]
fn column_labels_index_from_zero() {
    let index = |s: &str| Sheet::col_to_index(&String::from(s));
    assert_eq!(index("A"), Ok(0));
    assert_eq!(index("Z"), Ok(25));
    assert_eq!(index("AA"), Ok(26));
    assert_eq!(index("AZ"), Ok(51));
    assert_eq!(index("BA"), Ok(52));
    assert_eq!(index(""), Err(AddressSyntaxError));
    assert_eq!(index("a"), Err(AddressSyntaxError));
    assert_eq!(index("A1"), Err(AddressSyntaxError));
}

#[test]
fn write_then_read_and_overwrite() {
    let mut sheet = Sheet::new();
    sheet.write_cell(loc("B", 4), CellVal::Int(7));
    assert_eq!(int_at(&sheet, "B", 4), Some(7));
    assert_eq!(sheet.n_cols, 2);
    assert_eq!(sheet.n_rows, 4);
    sheet.write_cell(loc("B", 4), CellVal::Int(9));
    assert_eq!(int_at(&sheet, "B", 4), Some(9));
    assert_eq!(sheet.cols[1].len(), 1);
    assert!(sheet.get_cell(loc("B", 5)).is_none());
    assert!(sheet.get_cell(loc("Q", 1)).is_none());
}

#[test]
fn rows_stay_sorted_after_writes_and_deletes() {
    let mut sheet = Sheet::new();
    for row in [5usize, 2, 9, 2, 7, 1] {
        sheet.write_cell(loc("A", row), CellVal::Int(row as i64));
    }
    let rows: Vec<usize> = sheet.cols[0].iter().map(|c| c.loc.row).collect();
    assert_eq!(rows, vec![1, 2, 5, 7, 9]);
    assert!(sheet.delete_cell(loc("A", 5)));
    assert!(!sheet.delete_cell(loc("A", 5)));
    assert!(!sheet.delete_cell(loc("C", 1)));
    assert!(!sheet.delete_cell(loc("a", 1)));
    let rows: Vec<usize> = sheet.cols[0].iter().map(|c| c.loc.row).collect();
    assert_eq!(rows, vec![1, 2, 7, 9]);
    assert_eq!(sheet.n_rows, 9);
    assert_eq!(sheet.n_cols, 1);
}

#[test]
fn shrink_trims_trailing_empty_columns() {
    let mut sheet = Sheet::new();
    sheet.write_cell(loc("A", 1), CellVal::Int(1));
    sheet.add_col();
    sheet.add_col();
    assert_eq!(sheet.n_cols, 3);
    assert!(sheet.shrink());
    assert_eq!(sheet.n_cols, 1);
    assert_eq!(sheet.cols.len(), 1);
    assert_eq!(int_at(&sheet, "A", 1), Some(1));
}

#[test]
fn shrink_keeps_interior_empty_columns() {
    let mut sheet = Sheet::new();
    sheet.write_cell(loc("B", 2), CellVal::Int(2));
    sheet.add_col();
    assert_eq!(sheet.n_cols, 3);
    assert!(sheet.shrink());
    assert_eq!(sheet.n_cols, 2);
    assert!(sheet.cols[0].is_empty());
    assert_eq!(sheet.cols[1].len(), 1);
    assert!(!sheet.shrink());
}

#[test]
fn shrink_lowers_the_row_count() {
    let mut sheet = Sheet::new();
    sheet.write_cell(loc("A", 8), CellVal::Int(1));
    sheet.write_cell(loc("A", 3), CellVal::Int(1));
    assert!(sheet.delete_cell(loc("A", 8)));
    assert_eq!(sheet.n_rows, 8);
    assert!(sheet.shrink());
    assert_eq!(sheet.n_rows, 3);
    sheet.add_row();
    assert_eq!(sheet.n_rows, 4);
}

#[test]
fn literal_arithmetic_folds_left() {
    let sheet = Sheet::new();
    let tree = parse_formula_expr(&CellVal::Formula(String::from("=3-1+2"))).unwrap();
    let root = tree.root.as_ref().unwrap();
    assert!(matches!(root.token, FormToken::BinOp(Op::Plus)));
    let left = root.left.as_ref().unwrap();
    assert!(matches!(left.token, FormToken::BinOp(Op::Minus)));
    assert!(matches!(root.right.as_ref().unwrap().token, FormToken::Num(Number::Int(2))));
    assert_eq!(evaluate(&sheet, "=3-1+2"), Some(4.0));
    assert_eq!(evaluate(&sheet, "=1+2+3-4+5"), Some(7.0));
    assert_eq!(evaluate(&sheet, "=0.5+0.25"), Some(0.75));
}

#[test]
fn reference_to_number_resolves() {
    let mut sheet = Sheet::new();
    sheet.write_cell(loc("A", 1), CellVal::Int(10));
    assert_eq!(evaluate(&sheet, "=A1+5"), Some(15.0));
    sheet.write_cell(loc("B", 2), CellVal::Real(2.5f64.to_bits()));
    assert_eq!(evaluate(&sheet, "=B2-A1"), Some(-7.5));
}

fn shown(sheet: &Sheet, text: &str) -> CellVal {
    let reduced = sheet
        .eval_formula_cell(&CellVal::Formula(String::from(text)))
        .and_then(|tree| reduce(&tree.root));
    Sheet::formula_display(reduced.map(f64::to_bits))
}

#[test]
fn missing_reference_is_an_error() {
    let sheet = Sheet::new();
    assert!(sheet.eval_formula_cell(&CellVal::Formula(String::from("=Z9+1"))).is_none());
    assert!(matches!(shown(&sheet, "=Z9+1"), CellVal::Text(s) if s == "#ERR"));
}

#[test]
fn formula_display_shows_result_or_marker() {
    let sheet = Sheet::new();
    match shown(&sheet, "=3-1+2") {
        CellVal::Real(b) => assert_eq!(f64::from_bits(b), 4.0),
        other => panic!("expected a real, got {:?}", other),
    }
    assert!(matches!(Sheet::formula_display(None), CellVal::Text(s) if s == "#ERR"));
    assert!(matches!(Sheet::formula_display(Some(7)), CellVal::Real(7)));
}

#[test]
fn formula_reference_is_not_followed() {
    let mut sheet = Sheet::new();
    sheet.write_cell(loc("A", 1), CellVal::Formula(String::from("=1+1")));
    assert!(sheet.eval_formula_cell(&CellVal::Formula(String::from("=A1"))).is_none());
    assert!(matches!(shown(&sheet, "=A1"), CellVal::Text(s) if s == "#ERR"));
    assert!(matches!(shown(&sheet, "=1=2"), CellVal::Text(s) if s == "#ERR"));
    assert!(matches!(shown(&sheet, "=A=1"), CellVal::Text(s) if s == "#ERR"));
    sheet.write_cell(loc("A", 2), CellVal::Text(String::from("x")));
    assert!(sheet.eval_formula_cell(&CellVal::Formula(String::from("=A2"))).is_none());
}

#[test]
fn unreadable_decimal_fails_only_when_reduced() {
    let sheet = Sheet::new();
    let tree = sheet.eval_formula_cell(&CellVal::Formula(String::from("=1 +2"))).unwrap();
    assert_eq!(reduce(&tree.root), None);
}

#[test]
fn test_sheet_eval_tree() {
    let sheet = Sheet::new();
    let tree = parse_formula_expr(&CellVal::Formula(String::from("=1-A1+2-B3+3"))).unwrap();
    assert!(sheet.eval_tree(&tree.root).is_none());
    let tree = parse_formula_expr(&CellVal::Formula(String::from("=1+2+3-4+5"))).unwrap();
    let resolved = sheet.eval_tree(&tree.root).unwrap();
    assert_eq!(reduce(&resolved), Some(7.0));
}

#[test]
fn saved_dimensions_give_empty_columns() {
    let mut sheet = Sheet::with_dimensions(3, 5);
    assert_eq!(sheet.n_cols, 3);
    assert_eq!(sheet.n_rows, 5);
    assert_eq!(sheet.cols.len(), 3);
    assert!(sheet.cols.iter().all(|c| c.is_empty()));
    sheet.write_cell(loc("B", 2), CellVal::Int(1));
    assert_eq!(sheet.n_cols, 3);
    assert_eq!(sheet.n_rows, 5);
    assert!(sheet.shrink());
    assert_eq!(sheet.n_cols, 2);
    assert_eq!(sheet.n_rows, 2);
}
