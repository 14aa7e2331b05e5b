use rowly::data::Table;

#[test]
fn column_count_uses_widest_row() {
    let table = Table::new(vec![
        vec!["a".into()],
        vec!["b".into(), "c".into(), "d".into()],
    ]);

    assert_eq!(table.row_count(), 2);
    assert_eq!(table.column_count(), 3);
}

#[test]
fn editing_existing_cell_reports_change() {
    let mut table = Table::new(vec![vec!["old".into()]]);

    assert!(table.set_cell(0, 0, "new".to_string()).unwrap());
    assert_eq!(table.cell(0, 0), Some("new"));
    assert!(!table.set_cell(0, 0, "new".to_string()).unwrap());
}

#[test]
fn replacing_rows_returns_exact_removed_rows() {
    let mut table = Table::new(vec![vec!["a".into()], vec!["b".into()], vec!["c".into()]]);

    let removed = table
        .replace_rows(1, 1, vec![vec!["x".into()], vec!["y".into()]])
        .unwrap();

    assert_eq!(removed, vec![vec!["b".to_string()]]);
    assert_eq!(
        table.rows(),
        &[
            vec!["a".to_string()],
            vec!["x".to_string()],
            vec!["y".to_string()],
            vec!["c".to_string()],
        ]
    );
}

#[test]
fn replacing_row_segment_preserves_surrounding_cells() {
    let mut table = Table::new(vec![vec!["a".into(), "b".into(), "c".into(), "d".into()]]);

    let removed = table
        .replace_row_segment(0, 1, 2, &["x".into(), "y".into(), "z".into()])
        .unwrap();

    assert_eq!(removed, vec!["b".to_string(), "c".to_string()]);
    assert_eq!(
        table.rows(),
        &[vec![
            "a".to_string(),
            "x".to_string(),
            "y".to_string(),
            "z".to_string(),
            "d".to_string(),
        ]]
    );
}

#[test]
fn editing_a_missing_cell_is_refused() {
    let mut table = Table::new(vec![vec!["a".into()], vec![]]);

    assert!(table.set_cell(1, 0, "x".to_string()).is_err());
    assert!(table.set_cell(5, 0, "x".to_string()).is_err());
    assert_eq!(table.cell(1, 0), None);
    assert_eq!(table.cell(0, 0), Some("a"));
}

#[test]
fn replacing_rows_past_the_end_is_refused_and_changes_nothing() {
    let mut table = Table::new(vec![vec!["a".into()]]);

    assert!(table.replace_rows(1, 1, vec![]).is_err());
    assert!(table.replace_row_segment(0, 1, 1, &[]).is_err());
    assert_eq!(table.rows(), &[vec!["a".to_string()]]);
}
