use rowly::excel_python::{bridge_failure, export_request, import_request, response_rows, ExcelError};
use rowly::json::JsonValue;
use rowly::process::CsvDocument;

#[test]
fn export_request_carries_every_cell_as_text() {
    let document = CsvDocument::open_bytes(
        "source.csv".to_string(),
        "Name,Value\nAlice,001\nFormula,=1+1\n".as_bytes(),
    )
    .unwrap();
    let request = export_request(&document, "out.xlsx", "データ");
    let JsonValue::Object(members) = request else {
        panic!("the request is an object");
    };
    assert_eq!(members[0].0, "output_path");
    assert_eq!(members[0].1, JsonValue::String("out.xlsx".to_string()));
    assert_eq!(members[1].1, JsonValue::String("データ".to_string()));
    let JsonValue::Array(rows) = &members[2].1 else {
        panic!("rows is an array");
    };
    assert_eq!(
        rows[1],
        JsonValue::Array(vec![
            JsonValue::String("Alice".to_string()),
            JsonValue::String("001".to_string())
        ])
    );
}

#[test]
fn import_request_uses_null_for_the_active_sheet() {
    let JsonValue::Object(members) = import_request("in.xlsx", None) else {
        panic!("the request is an object");
    };
    assert_eq!(members[1], ("sheet_name".to_string(), JsonValue::Null));
}

#[test]
fn bridge_answers_must_hold_rows_of_strings() {
    let answer = JsonValue::Object(vec![(
        "rows".to_string(),
        JsonValue::Array(vec![JsonValue::Array(vec![JsonValue::String("a".to_string())])]),
    )]);
    assert_eq!(response_rows(&answer).unwrap(), vec![vec!["a".to_string()]]);
    let missing = JsonValue::Object(vec![]);
    assert_eq!(
        response_rows(&missing).unwrap_err().to_string(),
        "invalid Excel Python bridge protocol: bridge response does not contain rows"
    );
    let wrong = JsonValue::Object(vec![(
        "rows".to_string(),
        JsonValue::Array(vec![JsonValue::Array(vec![JsonValue::Null])]),
    )]);
    assert!(matches!(response_rows(&wrong), Err(ExcelError::Protocol(_))));
}

#[test]
fn bridge_failures_report_status_and_trimmed_stderr() {
    let error = bridge_failure(Some(1), "  sheet `Missing` not found\n");
    assert_eq!(
        error.to_string(),
        "Excel Python bridge failed with status Some(1): sheet `Missing` not found"
    );
    assert_eq!(
        bridge_failure(None, "").to_string(),
        "Excel Python bridge failed with status None: "
    );
}
