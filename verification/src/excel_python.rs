//! Excel workbooks through a Python bridge process: the requests sent to it, what is
//! read from its answers, and how its failures are reported. Starting the process and
//! exchanging the bytes is left to the program around the library.

use vstd::prelude::*;

use crate::json::{field, json_field, JsonValue};
use crate::process::document::{document_message, CsvDocument, DocumentError};
use crate::text::{chars_of, integer_text, integer_to_string, string_of_range, trim, trim_bounds};

verus! {

/// Why an Excel import or export failed.
#[derive(Debug)]
pub enum ExcelError {
    PythonStart { executable: String, message: String },
    Bridge { status: Option<i32>, stderr: String },
    Protocol(String),
    Document(DocumentError),
}

/// An exit status as `Option<i32>` prints it for debugging.
pub open spec fn status_text(status: Option<i32>) -> Seq<char> {
    match status {
        Some(code) => "Some("@ + integer_text(code as int) + ")"@,
        None => "None"@,
    }
}

/// The message of an Excel error.
pub open spec fn excel_message(error: ExcelError) -> Seq<char> {
    match error {
        ExcelError::PythonStart { executable, message } => "failed to start Python executable `"@
            + executable@ + "`: "@ + message@,
        ExcelError::Bridge { status, stderr } => "Excel Python bridge failed with status "@
            + status_text(status) + ": "@ + stderr@,
        ExcelError::Protocol(message) => "invalid Excel Python bridge protocol: "@ + message@,
        ExcelError::Document(inner) => document_message(inner),
    }
}

impl ExcelError {
    /// The error's message (see `excel_message`).
    pub fn to_string(&self) -> (text: String)
        ensures
            text@ == excel_message(*self),
    {
        match self {
            ExcelError::PythonStart { executable, message } => {
                let mut text = String::from_str("failed to start Python executable `");
                text.append(executable.as_str());
                text.append("`: ");
                text.append(message.as_str());
                text
            },
            ExcelError::Bridge { status, stderr } => {
                let mut text = String::from_str("Excel Python bridge failed with status ");
                match status {
                    Some(code) => {
                        text.append("Some(");
                        let digits = integer_to_string(*code as i64);
                        text.append(digits.as_str());
                        text.append(")");
                    },
                    None => {
                        text.append("None");
                    },
                }
                text.append(": ");
                text.append(stderr.as_str());
                text
            },
            ExcelError::Protocol(message) => {
                let mut text = String::from_str("invalid Excel Python bridge protocol: ");
                text.append(message.as_str());
                text
            },
            ExcelError::Document(inner) => inner.to_string(),
        }
    }
}

/// A bridge that exited unsuccessfully: its status, and what it wrote to standard error
/// with surrounding white space trimmed.
pub fn bridge_failure(status: Option<i32>, stderr: &str) -> (error: ExcelError)
    ensures
        error matches ExcelError::Bridge { status: s, stderr: text } && s == status && text@
            == trim(stderr@),
{
    let chars = chars_of(stderr);
    let (start, end) = trim_bounds(chars.as_slice(), 0, chars.len());
    assert(chars@.subrange(0, chars@.len() as int) =~= stderr@);
    ExcelError::Bridge { status, stderr: string_of_range(chars.as_slice(), start, end) }
}

/// `value` is a JSON string holding `text`.
pub open spec fn json_string_is(value: JsonValue, text: Seq<char>) -> bool {
    value matches JsonValue::String(s) && s@ == text
}

/// `value` is the JSON array of the table's rows, each an array of its cells.
pub open spec fn rows_json(value: JsonValue, rows: Seq<Seq<Seq<char>>>) -> bool {
    &&& value matches JsonValue::Array(items)
    &&& items@.len() == rows.len()
    &&& forall|r: int|
        0 <= r < rows.len() ==> {
            &&& (#[trigger] items@[r]) matches JsonValue::Array(cells)
            &&& cells@.len() == rows[r].len()
            &&& forall|c: int| 0 <= c < rows[r].len() ==> json_string_is(#[trigger] cells@[c], rows[r][c])
        }
}

/// The export request: `{"output_path", "sheet_name", "rows"}`.
pub open spec fn export_request_shape(
    value: JsonValue,
    rows: Seq<Seq<Seq<char>>>,
    output_path: Seq<char>,
    sheet_name: Seq<char>,
) -> bool {
    &&& value matches JsonValue::Object(members)
    &&& members@.len() == 3
    &&& members@[0].0@ == "output_path"@ && json_string_is(members@[0].1, output_path)
    &&& members@[1].0@ == "sheet_name"@ && json_string_is(members@[1].1, sheet_name)
    &&& members@[2].0@ == "rows"@ && rows_json(members@[2].1, rows)
}

fn text_value(text: &str) -> (value: JsonValue)
    ensures
        json_string_is(value, text@),
{
    JsonValue::String(String::from_str(text))
}

/// The request asking the bridge to write the document's rows into sheet `sheet_name` of
/// the workbook at `output_path`.
pub fn export_request(document: &CsvDocument, output_path: &str, sheet_name: &str) -> (request:
    JsonValue)
    ensures
        export_request_shape(request, document@, output_path@, sheet_name@),
{
    let rows = document.rows();
    let mut items: Vec<JsonValue> = Vec::new();
    let mut r: usize = 0;
    while r < rows.len()
        invariant
            r <= rows@.len() == document@.len(),
            rows.deep_view() == document@,
            items@.len() == r,
            forall|k: int|
                0 <= k < r ==> {
                    &&& (#[trigger] items@[k]) matches JsonValue::Array(cells)
                    &&& cells@.len() == document@[k].len()
                    &&& forall|c: int|
                        0 <= c < document@[k].len() ==> json_string_is(#[trigger] cells@[c], document@[k][c])
                },
        decreases rows@.len() - r,
    {
        let row = &rows[r];
        assert(row.deep_view() == document@[r as int]);
        let mut cells: Vec<JsonValue> = Vec::new();
        let mut c: usize = 0;
        while c < row.len()
            invariant
                c <= row@.len() == document@[r as int].len(),
                row.deep_view() == document@[r as int],
                cells@.len() == c,
                forall|k: int| 0 <= k < c ==> json_string_is(#[trigger] cells@[k], document@[r as int][k]),
            decreases row@.len() - c,
        {
            assert(row@[c as int]@ == document@[r as int][c as int]);
            cells.push(text_value(row[c].as_str()));
            c += 1;
        }
        items.push(JsonValue::Array(cells));
        r += 1;
    }
    JsonValue::Object(
        vec![
            (String::from_str("output_path"), text_value(output_path)),
            (String::from_str("sheet_name"), text_value(sheet_name)),
            (String::from_str("rows"), JsonValue::Array(items)),
        ],
    )
}

/// The import request: the workbook to read, and the sheet (`null` for the active one).
pub fn import_request(input_path: &str, sheet_name: Option<&str>) -> (request: JsonValue)
    ensures
        request matches JsonValue::Object(members) && members@.len() == 2 && members@[0].0@
            == "input_path"@ && json_string_is(members@[0].1, input_path@) && members@[1].0@
            == "sheet_name"@ && match sheet_name {
            Some(name) => json_string_is(members@[1].1, name@),
            None => members@[1].1 == JsonValue::Null,
        },
{
    let sheet = match sheet_name {
        Some(name) => text_value(name),
        None => JsonValue::Null,
    };
    JsonValue::Object(
        vec![
            (String::from_str("input_path"), text_value(input_path)),
            (String::from_str("sheet_name"), sheet),
        ],
    )
}

/// The rows in a bridge answer: its `rows` member, an array of arrays of strings.
pub fn response_rows(payload: &JsonValue) -> (result: Result<Vec<Vec<String>>, ExcelError>)
    ensures
        match result {
            Ok(rows) => json_field(*payload, "rows"@) matches Some(value) && rows_json(
                value,
                rows.deep_view(),
            ),
            Err(ExcelError::Protocol(message)) => match json_field(*payload, "rows"@) {
                None => message@ == "bridge response does not contain rows"@,
                Some(value) => forall|rows: Seq<Seq<Seq<char>>>| !rows_json(value, rows),
            },
            Err(_) => false,
        },
{
    let value = match field(payload, "rows") {
        Some(value) => value,
        None => {
            return Err(ExcelError::Protocol(String::from_str("bridge response does not contain rows")));
        },
    };
    let items = match value {
        JsonValue::Array(items) => items,
        _ => {
            return Err(ExcelError::Protocol(String::from_str("rows must be an array of rows")));
        },
    };
    let mut rows: Vec<Vec<String>> = Vec::new();
    let mut r: usize = 0;
    while r < items.len()
        invariant
            r <= items@.len(),
            *value == JsonValue::Array(*items),
            json_field(*payload, "rows"@) == Some(*value),
            rows@.len() == r,
            forall|k: int|
                0 <= k < r ==> {
                    &&& (#[trigger] items@[k]) matches JsonValue::Array(cells)
                    &&& cells@.len() == rows@[k]@.len()
                    &&& forall|c: int| 0 <= c < cells@.len() ==> json_string_is(#[trigger] cells@[c], rows@[k]@[c]@)
                },
        decreases items@.len() - r,
    {
        let cells = match &items[r] {
            JsonValue::Array(cells) => cells,
            _ => {
                proof {
                    assert forall|rows: Seq<Seq<Seq<char>>>| !rows_json(*value, rows) by {
                        if rows_json(*value, rows) {
                            assert(items@[r as int] matches JsonValue::Array(_));
                        }
                    }
                }
                return Err(ExcelError::Protocol(String::from_str("each row must be an array of strings")));
            },
        };
        let mut row: Vec<String> = Vec::new();
        let mut c: usize = 0;
        while c < cells.len()
            invariant
                c <= cells@.len(),
                r < items@.len(),
                items@[r as int] == JsonValue::Array(*cells),
                *value == JsonValue::Array(*items),
                json_field(*payload, "rows"@) == Some(*value),
                row@.len() == c,
                forall|k: int| 0 <= k < c ==> json_string_is(#[trigger] cells@[k], row@[k]@),
            decreases cells@.len() - c,
        {
            let text = match &cells[c] {
                JsonValue::String(text) => text.clone(),
                _ => {
                    proof {
                        assert forall|rows: Seq<Seq<Seq<char>>>| !rows_json(*value, rows) by {
                            if rows_json(*value, rows) {
                                assert(json_string_is(cells@[c as int], rows[r as int][c as int]));
                            }
                        }
                    }
                    return Err(ExcelError::Protocol(String::from_str("each cell must be a string")));
                },
            };
            row.push(text);
            c += 1;
        }
        rows.push(row);
        r += 1;
    }
    proof {
        assert forall|k: int| 0 <= k < items@.len() implies rows.deep_view()[k] == rows@[k]@.map_values(
            |cell: String| cell@,
        ) by {}
    }
    Ok(rows)
}

} // verus!
