use rowly::cli::{parse_command, CliCommand, DEFAULT_EXPORT_SHEET};

fn args(values: &[&str]) -> Vec<String> {
    values.iter().map(|value| value.to_string()).collect()
}

#[test]
fn keeps_single_csv_path_compatibility() {
    assert_eq!(
        parse_command(&args(&["data.csv"])).unwrap(),
        CliCommand::Inspect {
            csv_path: "data.csv".to_string()
        }
    );
}

#[test]
fn parses_excel_import_with_optional_sheet() {
    assert_eq!(
        parse_command(&args(&["excel", "import", "input.xlsx", "output.csv", "データ"])).unwrap(),
        CliCommand::ExcelImport {
            xlsx_path: "input.xlsx".to_string(),
            csv_path: "output.csv".to_string(),
            sheet_name: Some("データ".into()),
        }
    );

    assert_eq!(
        parse_command(&args(&["excel", "import", "input.xlsx", "output.csv"])).unwrap(),
        CliCommand::ExcelImport {
            xlsx_path: "input.xlsx".to_string(),
            csv_path: "output.csv".to_string(),
            sheet_name: None,
        }
    );
}

#[test]
fn parses_excel_export_with_default_and_explicit_sheet() {
    assert_eq!(
        parse_command(&args(&["excel", "export", "input.csv", "output.xlsx"])).unwrap(),
        CliCommand::ExcelExport {
            csv_path: "input.csv".to_string(),
            xlsx_path: "output.xlsx".to_string(),
            sheet_name: DEFAULT_EXPORT_SHEET.into(),
        }
    );

    assert_eq!(
        parse_command(&args(&["excel", "export", "input.csv", "output.xlsx", "帳票"])).unwrap(),
        CliCommand::ExcelExport {
            csv_path: "input.csv".to_string(),
            xlsx_path: "output.xlsx".to_string(),
            sheet_name: "帳票".into(),
        }
    );
}

#[test]
fn rejects_invalid_argument_counts_and_excel_actions() {
    for values in [
        vec![],
        vec!["a.csv", "b.csv"],
        vec!["excel"],
        vec!["excel", "unknown"],
        vec!["excel", "import", "input.xlsx"],
        vec!["excel", "export", "input.csv", "output.xlsx", "Sheet1", "extra"],
    ] {
        assert!(parse_command(&args(&values)).is_err(), "{values:?}");
    }
    assert_eq!(
        parse_command(&args(&["excel"])).unwrap_err(),
        "expected `excel import` or `excel export`"
    );
    assert_eq!(
        parse_command(&args(&[])).unwrap_err(),
        "expected one CSV path or an Excel subcommand"
    );
}
