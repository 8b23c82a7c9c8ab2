use minisheet::dtypes::{CellVal, FormToken, Number, Op, TknLink};
use minisheet::parsing::{
    buf_to_loc_or_num_token, parse_count, parse_first_line, parse_formula_expr, parse_int,
    parse_line, parse_loc, parse_val, tokenize_expr, value_from_saved, AddressSyntaxError,
    LineError, ValueKind,
};

fn double_bits(text: &str) -> Option<u64> {
    text.parse::<f64>().ok().map(f64::to_bits)
}

fn read_val(text: &str) -> CellVal {
    parse_val(&String::from(text), double_bits(text))
}

fn root_token(link: TknLink) -> FormToken {
    link.unwrap().token
}

#[test]
fn parse_val_int() {
    let cv = read_val("1");
    assert!(matches!(cv, CellVal::Int(_)), "failed to parse cell value as Int");
}

#[test]
fn parse_val_real() {
    let cv = read_val("1.");
    assert!(matches!(cv, CellVal::Real(_)), "failed to parse cell value as Real");
    let cv = read_val("1.234");
    assert!(matches!(cv, CellVal::Real(_)), "failed to parse cell value as Real");
}

#[test]
fn parse_val_text() {
    let cv = read_val("abc");
    assert!(matches!(cv, CellVal::Text(_)), "failed to parse cell value as Text");
}

#[test]
fn parse_val_formula() {
    let cv = read_val("=C3+C5*2");
    assert!(matches!(cv, CellVal::Formula(_)), "failed to parse cell value as Formula");
}

#[test]
fn buf_to_loc_or_num_token_correct_values() {
    let token = buf_to_loc_or_num_token(&String::from("A1"), true).unwrap();
    assert!(matches!(token, FormToken::Loc(_)), "failed to parse 'A1' as a FormToken::Loc");
    let token = buf_to_loc_or_num_token(&String::from("1"), false).unwrap();
    assert!(matches!(token, FormToken::Num(_)), "failed to parse 1 as a FormToken::Num");
    let token = buf_to_loc_or_num_token(&String::from("1.234"), false).unwrap();
    assert!(matches!(token, FormToken::Num(_)), "failed to parse 1 as a FormToken::Num");
}

#[test]
fn parse_formula_expr_num() {
    let cell_val = CellVal::Formula(String::from("=69"));
    let tree = parse_formula_expr(&cell_val).unwrap();
    assert!(matches!(root_token(tree.root), FormToken::Num(_)), "");
    let cell_val = CellVal::Formula(String::from("=4.20"));
    let tree = parse_formula_expr(&cell_val).unwrap();
    assert!(matches!(root_token(tree.root), FormToken::Num(_)), "");
}

#[test]
fn parse_formula_expr_loc() {
    let cell_val = CellVal::Formula(String::from("=F2"));
    let tree = parse_formula_expr(&cell_val).unwrap();
    assert!(matches!(root_token(tree.root), FormToken::Loc(_)), "");
}

#[test]
fn parse_formula_expr_many() {
    let cell_val = CellVal::Formula(String::from("=1+A1+2+B2+3"));
    let tree = parse_formula_expr(&cell_val);
    assert!(tree.is_some());
    println!("doesn't matter: {:?}", "f");
}

#[test]
fn malformed_addresses_are_rejected() {
    assert_eq!(parse_loc(&String::from("1A")).unwrap_err(), AddressSyntaxError);
    assert_eq!(parse_loc(&String::from("A")).unwrap_err(), AddressSyntaxError);
    assert!(parse_loc(&String::from("")).is_err());
    assert!(parse_loc(&String::from("A0")).is_err());
    assert!(parse_loc(&String::from("A1B")).is_err());
    assert!(parse_loc(&String::from("A 1")).is_err());
    assert!(parse_loc(&String::from("A99999999999999999999999")).is_err());
}

#[test]
fn address_letters_are_upper_cased() {
    let loc = parse_loc(&String::from("ab12")).unwrap();
    assert_eq!(loc.col, "AB");
    assert_eq!(loc.row, 12);
    let loc = parse_loc(&String::from("C007")).unwrap();
    assert_eq!(loc.col, "C");
    assert_eq!(loc.row, 7);
}

#[test]
fn integers_read_like_std() {
    assert_eq!(parse_int(&String::from("42")), Some(42));
    assert_eq!(parse_int(&String::from("-17")), Some(-17));
    assert_eq!(parse_int(&String::from("+5")), Some(5));
    assert_eq!(parse_int(&String::from("9223372036854775807")), Some(i64::MAX));
    assert_eq!(parse_int(&String::from("-9223372036854775808")), Some(i64::MIN));
    assert_eq!(parse_int(&String::from("9223372036854775808")), None);
    assert_eq!(parse_int(&String::from("2147483648")), Some(2147483648));
    assert_eq!(parse_int(&String::from("-")), None);
    assert_eq!(parse_int(&String::from("")), None);
    assert_eq!(parse_int(&String::from("1.5")), None);
    assert_eq!(parse_count(&String::from("+12")), Some(12));
    assert_eq!(parse_count(&String::from("-1")), None);
}

#[test]
fn values_are_classified() {
    assert!(matches!(read_val("-3"), CellVal::Int(-3)));
    match read_val("2.5") {
        CellVal::Real(b) => assert_eq!(f64::from_bits(b), 2.5),
        other => panic!("expected a real, got {:?}", other),
    }
    match read_val("=1") {
        CellVal::Formula(s) => assert_eq!(s, "=1"),
        other => panic!("expected a formula, got {:?}", other),
    }
    match read_val("") {
        CellVal::Text(s) => assert_eq!(s, ""),
        other => panic!("expected text, got {:?}", other),
    }
}

#[test]
fn first_line_gives_dimensions() {
    assert_eq!(parse_first_line(&String::from("3 7")), Some((3, 7)));
    assert_eq!(parse_first_line(&String::from("0 0")), Some((0, 0)));
    assert_eq!(parse_first_line(&String::from("3")), None);
    assert_eq!(parse_first_line(&String::from("x 2")), None);
}

fn load_line(line: &str) -> Result<CellVal, LineError> {
    let (_, kind, text) = parse_line(&String::from(line))?;
    value_from_saved(kind, &text, double_bits(&text)).ok_or(LineError::Value)
}

#[test]
fn cell_lines_split_into_address_and_value() {
    let (loc, kind, text) = parse_line(&String::from("B3 Int(7)")).unwrap();
    assert_eq!(loc.col, "B");
    assert_eq!(loc.row, 3);
    assert_eq!(kind, ValueKind::Int);
    assert_eq!(text, "7");
    let (_, kind, text) = parse_line(&String::from("A1 Text(\"a b\")")).unwrap();
    assert_eq!(kind, ValueKind::Text);
    assert_eq!(text, "a b");
    let (_, kind, text) = parse_line(&String::from("A2 =A1+1")).unwrap();
    assert_eq!(kind, ValueKind::Formula);
    assert_eq!(text, "=A1+1");
    assert_eq!(parse_line(&String::from("11 Int(1)")).unwrap_err(), LineError::Address);
    assert_eq!(parse_line(&String::from("A1")).unwrap_err(), LineError::NoValue);
    assert_eq!(parse_line(&String::from("A1 7")).unwrap_err(), LineError::Value);
}

#[test]
fn saved_values_keep_their_kind() {
    assert!(matches!(load_line("A1 Text(\"12\")"), Ok(CellVal::Text(s)) if s == "12"));
    assert!(matches!(load_line("A1 Int(12)"), Ok(CellVal::Int(12))));
    assert!(matches!(load_line("A1 =1+1"), Ok(CellVal::Formula(s)) if s == "=1+1"));
    assert!(matches!(load_line("A1 Text(\"say \"hi\"\")"), Ok(CellVal::Text(s)) if s == "say \"hi\""));
    match load_line("A1 Real(12.0)") {
        Ok(CellVal::Real(b)) => assert_eq!(f64::from_bits(b), 12.0),
        other => panic!("expected a real, got {:?}", other),
    }
    assert_eq!(load_line("A1 Int(x)").unwrap_err(), LineError::Value);
    assert_eq!(load_line("A1 Real(x)").unwrap_err(), LineError::Value);
}

#[test]
fn literal_formula_tokens() {
    let tokens = tokenize_expr(&String::from("3-1+2")).unwrap();
    assert_eq!(tokens.len(), 5);
    assert!(matches!(tokens[0], FormToken::Num(Number::Int(3))));
    assert!(matches!(tokens[1], FormToken::BinOp(Op::Minus)));
    assert!(matches!(tokens[2], FormToken::Num(Number::Int(1))));
    assert!(matches!(tokens[3], FormToken::BinOp(Op::Plus)));
    assert!(matches!(tokens[4], FormToken::Num(Number::Int(2))));
    let tokens = tokenize_expr(&String::from("A1+2.5")).unwrap();
    assert!(matches!(&tokens[0], FormToken::Loc(l) if l.col == "A" && l.row == 1));
    assert!(matches!(&tokens[2], FormToken::Num(Number::Decimal(s)) if s == "2.5"));
}

#[test]
fn malformed_formulas_give_no_tokens_or_tree() {
    assert!(tokenize_expr(&String::from("")).is_none());
    assert!(tokenize_expr(&String::from("1+")).is_none());
    assert!(tokenize_expr(&String::from("1A+2")).is_none());
    let tokens = tokenize_expr(&String::from("-1")).unwrap();
    assert_eq!(tokens.len(), 2);
    assert!(parse_formula_expr(&CellVal::Formula(String::from("=-1"))).is_none());
    assert!(parse_formula_expr(&CellVal::Formula(String::from("=1+"))).is_none());
    assert!(parse_formula_expr(&CellVal::Int(1)).is_none());
    assert!(tokenize_expr(&String::from("A=1")).is_none());
    let tokens = tokenize_expr(&String::from("1=2")).unwrap();
    assert!(matches!(&tokens[0], FormToken::Num(Number::Decimal(s)) if s == "1=2"));
}
