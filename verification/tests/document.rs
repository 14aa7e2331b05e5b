use encoding_rs::SHIFT_JIS;
use rowly::data::SourceEncoding;
use rowly::json::{JsonNumber, JsonValue};
use rowly::process::{ColumnError, ColumnType, CsvDocument, DocumentError, MetadataError};

fn open(text: &str) -> CsvDocument {
    CsvDocument::open_bytes("data.csv".to_string(), text.as_bytes()).unwrap()
}

fn object(members: Vec<(&str, JsonValue)>) -> JsonValue {
    JsonValue::Object(
        members
            .into_iter()
            .map(|(key, value)| (key.to_string(), value))
            .collect(),
    )
}

fn text(value: &str) -> JsonValue {
    JsonValue::String(value.to_string())
}

#[test]
fn create_writes_utf8_csv_and_starts_clean() {
    let rows = vec![
        vec!["名前".to_owned(), "値".to_owned()],
        vec!["田中".to_owned(), "1".to_owned()],
    ];

    let document = CsvDocument::create("created.csv".to_string(), rows.clone());

    assert_eq!(document.source_encoding(), SourceEncoding::Utf8);
    assert!(!document.is_dirty());
    assert!(!document.can_undo());
    assert_eq!(document.rows(), &rows);

    let bytes = document.save_bytes().unwrap();
    let reopened = CsvDocument::open_bytes("created.csv".to_string(), &bytes).unwrap();
    assert_eq!(reopened.cell_a1("A2").unwrap(), Some("田中"));
    assert_eq!(reopened.cell_a1("B2").unwrap(), Some("1"));
}

#[test]
fn column_type_metadata_round_trips_without_changing_csv() {
    let source = "名前,年齢\n田中,20\n山田,21\n";
    let mut document = open(source);
    document
        .set_column_type_declaration_by_header("年齢", ColumnType::Integer)
        .unwrap();
    let sidecar = document.metadata_json();
    document.mark_metadata_saved();

    assert_eq!(document.save_bytes().unwrap(), source.as_bytes());
    assert_eq!(document.metadata_path(), "data.csv.rowly.json");

    let mut reopened = open(source);
    reopened.load_metadata(Some(Ok(sidecar)));
    assert_eq!(
        reopened.column_type_declaration_by_header("年齢").unwrap(),
        Some(ColumnType::Integer)
    );
    assert_eq!(reopened.metadata_error(), None);
    assert!(!reopened.is_dirty());
}

#[test]
fn column_type_metadata_follows_header_after_column_reorder() {
    let mut document = open("名前,年齢\n田中,20\n");
    document
        .set_column_type_declaration_by_header("年齢", ColumnType::Integer)
        .unwrap();
    document.insert_columns(0, 1).unwrap();
    document.set_cell(0, 0, "ID").unwrap();

    assert_eq!(document.column_index_by_header("年齢").unwrap(), 2);
    assert_eq!(
        document.column_type_declaration_by_header("年齢").unwrap(),
        Some(ColumnType::Integer)
    );
}

#[test]
fn duplicate_header_cannot_receive_type_declaration() {
    let mut document = open("名前,名前\n田中,山田\n");
    assert!(matches!(
        document.set_column_type_declaration_by_header("名前", ColumnType::String),
        Err(DocumentError::Column(ColumnError::AmbiguousHeader { .. }))
    ));
}

#[test]
fn invalid_sidecar_does_not_prevent_csv_open() {
    let mut document = open("名前,年齢\n田中,20\n");
    let sidecar = object(vec![
        ("version", JsonValue::Number(JsonNumber::PosInt(1))),
        ("columns", object(vec![("年齢", object(vec![("type", text("Unknown"))]))])),
    ]);
    document.load_metadata(Some(Ok(sidecar)));

    assert_eq!(document.cell_a1("B2").unwrap(), Some("20"));
    assert_eq!(
        document.metadata_error(),
        Some("invalid Rowly metadata schema: column metadata for `年齢` has unsupported type `Unknown`")
    );
    assert_eq!(
        document.column_type_declaration_by_header("年齢").unwrap(),
        None
    );
}

#[test]
fn sidecar_schema_errors_name_what_is_missing() {
    let mut document = open("a\n1\n");
    document.load_metadata(Some(Ok(object(vec![]))));
    assert_eq!(
        document.metadata_error(),
        Some("invalid Rowly metadata schema: missing integer metadata version")
    );
    document.load_metadata(Some(Ok(object(vec![(
        "version",
        JsonValue::Number(JsonNumber::PosInt(2)),
    )]))));
    assert_eq!(
        document.metadata_error(),
        Some("invalid Rowly metadata schema: unsupported metadata version 2")
    );
    document.load_metadata(Some(Ok(object(vec![(
        "version",
        JsonValue::Number(JsonNumber::PosInt(1)),
    )]))));
    assert_eq!(
        document.metadata_error(),
        Some("invalid Rowly metadata schema: missing columns object")
    );
    document.load_metadata(Some(Ok(object(vec![
        ("version", JsonValue::Number(JsonNumber::PosInt(1))),
        ("columns", object(vec![("a", object(vec![("type", JsonValue::Null)]))])),
    ]))));
    assert_eq!(
        document.metadata_error(),
        Some("invalid Rowly metadata schema: column metadata for `a` does not contain a string type")
    );
    document.load_metadata(Some(Err(MetadataError::Parse {
        path: "a.csv.rowly.json".to_string(),
        message: "expected value".to_string(),
    })));
    assert_eq!(
        document.metadata_error(),
        Some("failed to parse Rowly metadata `a.csv.rowly.json`: expected value")
    );
    document.load_metadata(None);
    assert_eq!(document.metadata_error(), None);
    assert!(document.column_type_declarations().is_empty());
}

#[test]
fn declarations_are_listed_in_header_order_and_can_be_removed() {
    let mut document = open("b,a,c\n1,2,3\n");
    document
        .set_column_type_declaration_by_header("c", ColumnType::Boolean)
        .unwrap();
    document
        .set_column_type_declaration_by_header("a", ColumnType::Decimal)
        .unwrap();
    document
        .set_column_type_declaration_by_header("b", ColumnType::String)
        .unwrap();
    document
        .set_column_type_declaration_by_header("a", ColumnType::Integer)
        .unwrap();
    let headers: Vec<(&str, ColumnType)> = document
        .column_type_declarations()
        .iter()
        .map(|(header, column_type)| (header.as_str(), *column_type))
        .collect();
    assert_eq!(
        headers,
        vec![
            ("a", ColumnType::Integer),
            ("b", ColumnType::String),
            ("c", ColumnType::Boolean)
        ]
    );
    assert_eq!(document.remove_column_type_declaration_by_header("b").unwrap(), true);
    assert_eq!(document.remove_column_type_declaration_by_header("b").unwrap(), false);
    assert_eq!(document.column_type_declarations().len(), 2);
    assert!(matches!(
        document.remove_column_type_declaration_by_header("z"),
        Err(DocumentError::Column(ColumnError::HeaderNotFound(_)))
    ));
    let sidecar = document.metadata_json();
    let mut reopened = open("b,a,c\n1,2,3\n");
    reopened.load_metadata(Some(Ok(sidecar)));
    assert_eq!(
        reopened.column_type_declaration_by_header("c").unwrap(),
        Some(ColumnType::Boolean)
    );
    assert_eq!(reopened.column_type_declaration_by_header("b").unwrap(), None);
}

#[test]
fn column_type_names_round_trip() {
    for column_type in [
        ColumnType::String,
        ColumnType::Integer,
        ColumnType::Decimal,
        ColumnType::Boolean,
    ] {
        assert_eq!(
            ColumnType::from_metadata_str(column_type.as_metadata_str()),
            Some(column_type)
        );
    }
    assert_eq!(ColumnType::Integer.as_metadata_str(), "Integer");
    assert_eq!(ColumnType::from_metadata_str("integer"), None);
}

#[test]
fn edit_marks_document_dirty_until_save() {
    let mut document = open("name,value\nAlice,1\n");
    assert!(!document.is_dirty());

    document.set_cell(1, 1, "2").unwrap();
    assert!(document.is_dirty());
    assert_eq!(document.cell(1, 1), Some("2"));

    document.save_bytes().unwrap();
    document.mark_saved();
    assert!(!document.is_dirty());
    assert_eq!(document.source_encoding(), SourceEncoding::Utf8);
}

#[test]
fn a1_range_edit_is_one_undoable_command() {
    let mut document = open("value\n1\n2\n3\n4\n5\n6\n7\n");
    document.set_range_a1("A1:A8", "8").unwrap();

    for row in 0..8 {
        assert_eq!(document.cell(row, 0), Some("8"));
    }
    assert!(document.can_undo());
    assert!(!document.can_redo());

    assert!(document.undo().unwrap());
    assert_eq!(document.cell_a1("A1").unwrap(), Some("value"));
    assert_eq!(document.cell_a1("A2").unwrap(), Some("1"));
    assert_eq!(document.cell_a1("A8").unwrap(), Some("7"));
    assert!(document.can_redo());

    assert!(document.redo().unwrap());
    for row in 0..8 {
        assert_eq!(document.cell(row, 0), Some("8"));
    }
}

#[test]
fn range_edit_validates_every_cell_before_writing() {
    let mut document = open("a,b\nc\n");
    let error = document.set_range_a1("A1:B2", "x").unwrap_err();

    assert!(error.to_string().contains("B2"));
    assert_eq!(document.cell_a1("A1").unwrap(), Some("a"));
    assert_eq!(document.cell_a1("B1").unwrap(), Some("b"));
    assert_eq!(document.cell_a1("A2").unwrap(), Some("c"));
    assert!(!document.can_undo());
    assert!(!document.is_dirty());
}

#[test]
fn row_insert_delete_and_history_restore_exact_rows() {
    let mut document = open("a,b\n1,2\n3,4\n");
    document.insert_rows(1, 2).unwrap();
    assert_eq!(document.row_count(), 5);
    assert_eq!(document.cell(1, 0), Some(""));
    assert_eq!(document.cell(1, 1), Some(""));
    assert_eq!(document.cell(3, 0), Some("1"));

    assert!(document.undo().unwrap());
    assert_eq!(document.row_count(), 3);
    assert_eq!(document.cell(1, 0), Some("1"));
    assert!(document.redo().unwrap());
    assert_eq!(document.row_count(), 5);

    document.delete_rows(1, 3).unwrap();
    assert_eq!(document.row_count(), 2);
    assert_eq!(document.cell(1, 0), Some("3"));
    assert!(document.undo().unwrap());
    assert_eq!(document.row_count(), 5);
    assert_eq!(document.cell(3, 0), Some("1"));
    assert_eq!(document.cell(4, 0), Some("3"));
}

#[test]
fn column_insert_preserves_ragged_missing_cells_and_undo_restores_shape() {
    let mut document = open("a,b,c\n1,2\nx\n");
    document.insert_columns(2, 1).unwrap();

    assert_eq!(document.column_count(), 4);
    assert_eq!(document.cell(0, 2), Some(""));
    assert_eq!(document.cell(0, 3), Some("c"));
    assert_eq!(document.cell(1, 2), Some(""));
    assert_eq!(document.cell(2, 1), None);

    assert!(document.undo().unwrap());
    assert_eq!(document.column_count(), 3);
    assert_eq!(document.cell(0, 2), Some("c"));
    assert_eq!(document.cell(1, 1), Some("2"));
    assert_eq!(document.cell(1, 2), None);
    assert_eq!(document.cell(2, 1), None);

    assert!(document.redo().unwrap());
    assert_eq!(document.cell(0, 3), Some("c"));
}

#[test]
fn column_delete_and_undo_restore_removed_values_per_row() {
    let mut document = open("a,b,c,d\n1,2,3\nx,y\nz\n");
    document.delete_columns(1, 2).unwrap();

    assert_eq!(document.cell(0, 0), Some("a"));
    assert_eq!(document.cell(0, 1), Some("d"));
    assert_eq!(document.cell(1, 0), Some("1"));
    assert_eq!(document.cell(1, 1), None);
    assert_eq!(document.cell(2, 0), Some("x"));
    assert_eq!(document.cell(2, 1), None);
    assert_eq!(document.cell(3, 0), Some("z"));

    assert!(document.undo().unwrap());
    assert_eq!(document.cell(0, 1), Some("b"));
    assert_eq!(document.cell(0, 2), Some("c"));
    assert_eq!(document.cell(0, 3), Some("d"));
    assert_eq!(document.cell(1, 1), Some("2"));
    assert_eq!(document.cell(1, 2), Some("3"));
    assert_eq!(document.cell(2, 1), Some("y"));
    assert_eq!(document.cell(3, 1), None);
}

#[test]
fn invalid_structural_edit_is_atomic_and_not_recorded() {
    let mut document = open("a,b\n1,2\n");
    assert!(document.delete_rows(1, 2).is_err());
    assert!(document.delete_columns(1, 2).is_err());

    assert_eq!(document.row_count(), 2);
    assert_eq!(document.column_count(), 2);
    assert_eq!(document.cell(1, 1), Some("2"));
    assert!(!document.can_undo());
    assert!(!document.is_dirty());
}

#[test]
fn dirty_state_tracks_saved_state_through_undo_and_redo() {
    let mut document = open("name,value\nAlice,1\n");
    document.set_cell_a1("B2", "2").unwrap();
    assert!(document.is_dirty());

    assert!(document.undo().unwrap());
    assert!(!document.is_dirty());

    assert!(document.redo().unwrap());
    assert!(document.is_dirty());
    document.save_bytes().unwrap();
    document.mark_saved();
    assert!(!document.is_dirty());

    assert!(document.undo().unwrap());
    assert!(document.is_dirty());
    assert!(document.redo().unwrap());
    assert!(!document.is_dirty());
}

#[test]
fn structural_edit_uses_same_dirty_history_state() {
    let mut document = open("a,b\n1,2\n");
    document.insert_columns(1, 1).unwrap();
    assert!(document.is_dirty());

    assert!(document.undo().unwrap());
    assert!(!document.is_dirty());
    assert!(document.redo().unwrap());
    assert!(document.is_dirty());
}

#[test]
fn new_edit_after_undo_discards_redo_branch() {
    let mut document = open("a,b\n1,2\n");
    document.set_cell_a1("A2", "x").unwrap();
    document.set_cell_a1("B2", "y").unwrap();
    assert!(document.undo().unwrap());
    assert!(document.can_redo());

    document.set_cell_a1("A1", "header").unwrap();
    assert!(!document.can_redo());
}

#[test]
fn committed_transaction_is_one_undoable_command() {
    let mut document = open("a,b\n1,2\n3,4\n");
    document.begin_transaction().unwrap();
    document.set_cell_a1("A2", "x").unwrap();
    document.set_cell_a1("B3", "y").unwrap();
    document.insert_rows(2, 1).unwrap();
    assert!(document.is_dirty());
    assert!(document.transaction_active());
    document.commit_transaction().unwrap();

    assert!(!document.transaction_active());
    assert_eq!(document.cell_a1("A2").unwrap(), Some("x"));
    assert_eq!(document.row_count(), 4);

    assert!(document.undo().unwrap());
    assert_eq!(document.cell_a1("A2").unwrap(), Some("1"));
    assert_eq!(document.cell_a1("B3").unwrap(), Some("4"));
    assert_eq!(document.row_count(), 3);
    assert!(!document.can_undo());

    assert!(document.redo().unwrap());
    assert_eq!(document.cell_a1("A2").unwrap(), Some("x"));
    assert_eq!(document.row_count(), 4);
}

#[test]
fn rollback_transaction_restores_all_changes_without_history() {
    let mut document = open("a,b\n1,2\n");
    document.begin_transaction().unwrap();
    document.set_cell_a1("A2", "x").unwrap();
    document.insert_columns(1, 1).unwrap();
    assert!(document.is_dirty());

    document.rollback_transaction().unwrap();

    assert_eq!(document.cell_a1("A2").unwrap(), Some("1"));
    assert_eq!(document.cell_a1("B2").unwrap(), Some("2"));
    assert_eq!(document.column_count(), 2);
    assert!(!document.is_dirty());
    assert!(!document.can_undo());
    assert!(!document.transaction_active());
}

#[test]
fn transaction_rejects_nested_begin_and_history_or_save_operations() {
    let mut document = open("a,b\n1,2\n");
    document.begin_transaction().unwrap();
    assert!(matches!(
        document.begin_transaction(),
        Err(DocumentError::Transaction(_))
    ));
    assert!(matches!(document.undo(), Err(DocumentError::Transaction(_))));
    assert!(matches!(document.redo(), Err(DocumentError::Transaction(_))));
    assert!(matches!(
        document.save_bytes(),
        Err(DocumentError::Transaction(_))
    ));
    assert!(matches!(
        document.save_as_bytes("other.csv"),
        Err(DocumentError::Transaction(_))
    ));

    document.rollback_transaction().unwrap();
}

#[test]
fn transaction_refusals_name_the_refused_operation() {
    let mut document = open("a,b\n1,2\n");
    match document.rollback_transaction() {
        Err(DocumentError::Transaction(message)) => assert_eq!(message, "no transaction is active"),
        other => panic!("unexpected {other:?}"),
    }
    document.begin_transaction().unwrap();
    match document.begin_transaction() {
        Err(DocumentError::Transaction(message)) => {
            assert_eq!(message, "a transaction is already active")
        }
        other => panic!("unexpected {other:?}"),
    }
    match document.undo() {
        Err(DocumentError::Transaction(message)) => {
            assert_eq!(message, "cannot undo while a transaction is active")
        }
        other => panic!("unexpected {other:?}"),
    }
    match document.save_as_bytes("other.csv") {
        Err(DocumentError::Transaction(message)) => {
            assert_eq!(message, "cannot save_as while a transaction is active")
        }
        other => panic!("unexpected {other:?}"),
    }
    document.commit_transaction().unwrap();
    assert_eq!(document.save_as_bytes("other.csv").unwrap(), b"a,b\n1,2\n");
}

#[test]
fn transaction_commit_and_rollback_require_active_transaction() {
    let mut document = open("a,b\n1,2\n");
    assert!(matches!(
        document.commit_transaction(),
        Err(DocumentError::Transaction(_))
    ));
    assert!(matches!(
        document.rollback_transaction(),
        Err(DocumentError::Transaction(_))
    ));
}

#[test]
fn saving_shift_jis_input_converts_file_to_utf8() {
    let source = "部署,名前\n営業部,田中太郎\n開発部,山田一郎\n";
    let (encoded, _, had_errors) = SHIFT_JIS.encode(source);
    assert!(!had_errors);

    let mut document = CsvDocument::open_bytes("japanese.csv".to_string(), &encoded).unwrap();
    assert_eq!(document.source_encoding(), SourceEncoding::ShiftJis);
    assert_eq!(document.cell(1, 1), Some("田中太郎"));

    let saved = document.save_bytes().unwrap();
    document.mark_saved();

    let saved_text = std::str::from_utf8(&saved).unwrap();
    assert_eq!(saved_text, source);
    assert_eq!(document.source_encoding(), SourceEncoding::Utf8);
}

#[test]
fn undo_of_a_cell_edit_restores_the_earlier_table_and_redo_repeats_it() {
    let mut document = open("a,b\n1,2\n");
    let before = document.rows().clone();
    document.set_cell(1, 0, "changed").unwrap();
    let after = document.rows().clone();
    assert!(document.undo().unwrap());
    assert_eq!(document.rows(), &before);
    assert!(document.redo().unwrap());
    assert_eq!(document.rows(), &after);
    assert!(!document.redo().unwrap());
}

#[test]
fn range_edit_reaching_a_missing_cell_names_the_first_one() {
    let mut document = open("a,b\n1,2\n");
    match document.set_range_a1("A1:C3", "x") {
        Err(DocumentError::Edit(message)) => {
            assert_eq!(message, "cell `C1` is outside the existing CSV table")
        }
        other => panic!("unexpected {other:?}"),
    }
    assert_eq!(document.cell_a1("A1").unwrap(), Some("a"));
    match document.set_cell(1, 5, "x") {
        Err(DocumentError::Edit(message)) => {
            assert_eq!(message, "cell `F2` is outside the existing CSV table")
        }
        other => panic!("unexpected {other:?}"),
    }
}
