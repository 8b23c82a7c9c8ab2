use minisheet::sheet::Sheet;

#[test]
fn some_main_test_() {
    let sheet = Sheet::new();
    assert_eq!(sheet.n_cols, 0);
    assert!(true);
}
