use rowly::logical_table::{is_csv, sort_paths, LogicalLoadError, LogicalProject};

fn records(text: &[&[&str]]) -> Vec<Vec<String>> {
    text.iter()
        .map(|row| row.iter().map(|cell| cell.to_string()).collect())
        .collect()
}

#[test]
fn files_with_the_same_header_share_one_table() {
    let mut project = LogicalProject::new();
    project
        .add_file("main", "a.csv", &records(&[&["id", "name"], &["1", "x"], &["2", "y"]]))
        .unwrap();
    project
        .add_file("main", "b.csv", &records(&[&["code"], &["Z"]]))
        .unwrap();
    project
        .add_file("extra", "c.csv", &records(&[&["id", "name"], &["3", "z"]]))
        .unwrap();

    assert_eq!(project.tables.len(), 2);
    let first = &project.tables[0];
    assert_eq!(first.schema, vec!["id".to_string(), "name".to_string()]);
    assert_eq!(first.rows.len(), 3);
    assert_eq!(first.display_order, vec![0, 1, 2]);
    assert_eq!(first.rows[2].values, vec!["3".to_string(), "z".to_string()]);
    assert_eq!(first.rows[2].origin.source_id, "extra");
    assert_eq!(first.rows[2].origin.path, "c.csv");
    assert_eq!(first.rows[2].origin.record_index, 0);
    assert_eq!(first.rows[1].origin.record_index, 1);
    assert_eq!(project.tables[1].schema, vec!["code".to_string()]);
}

#[test]
fn a_file_without_records_has_no_header() {
    let mut project = LogicalProject::new();
    let error = project.add_file("main", "empty.csv", &Vec::new()).unwrap_err();
    assert_eq!(error, LogicalLoadError::MissingHeader("empty.csv".to_string()));
    assert_eq!(error.to_string(), "CSV has no header record: empty.csv");
    assert!(project.tables.is_empty());
}

#[test]
fn csv_bytes_are_opened_before_grouping() {
    let mut project = LogicalProject::new();
    project
        .add_csv_file("main", "a.csv", "h1,h2\nv1,v2\n".as_bytes())
        .unwrap();
    assert_eq!(project.tables[0].rows[0].values, vec!["v1".to_string(), "v2".to_string()]);
    let error = project.add_csv_file("main", "bad.csv", &[0xff, 0xfe, 0x00]).unwrap_err();
    assert!(matches!(error, LogicalLoadError::Csv { ref path, .. } if path == "bad.csv"));
}

#[test]
fn csv_files_are_recognised_by_extension_in_any_case() {
    assert!(is_csv("data/a.csv"));
    assert!(is_csv("data/B.CSV"));
    assert!(is_csv("a.CsV"));
    assert!(!is_csv("data/.csv"));
    assert!(!is_csv("data/a.tsv"));
    assert!(!is_csv("data/csv"));
    assert!(!is_csv("data/a.csv/.."));
    assert!(is_csv("data/a.csv/."));
}

#[test]
fn default_write_target_must_be_a_source_of_the_table() {
    let mut project = LogicalProject::new();
    project
        .add_file("north", "n.csv", &records(&[&["id"], &["1"]]))
        .unwrap();
    project
        .add_file("south", "s.csv", &records(&[&["id"], &["2"]]))
        .unwrap();
    project
        .add_file("other", "o.csv", &records(&[&["code"], &["x"]]))
        .unwrap();
    assert_eq!(
        project.tables[0].source_ids,
        vec!["north".to_string(), "south".to_string()]
    );
    let table = &mut project.tables[0];
    table.set_default_write_target("south").unwrap();
    assert_eq!(table.default_write_target, Some("south".to_string()));
    let refused = table.set_default_write_target("other").unwrap_err();
    assert_eq!(
        refused.to_string(),
        "source `other` does not take part in this logical table"
    );
    assert_eq!(table.default_write_target, Some("south".to_string()));
}

#[test]
fn paths_sort_part_by_part_like_std_paths() {
    let paths: Vec<String> = [
        "data/b.csv",
        "data-x/a.csv",
        "data/a.csv",
        "/abs/z.csv",
        "data/sub/a.csv",
        "./data/c.csv",
        "data/a.csv",
        "data/../e.csv",
        "データ/a.csv",
    ]
    .iter()
    .map(|path| path.to_string())
    .collect();
    let sorted = sort_paths(&paths);
    let mut expected = paths.clone();
    expected.sort_by(|a, b| std::path::Path::new(a).cmp(std::path::Path::new(b)));
    assert_eq!(sorted, expected);
}
