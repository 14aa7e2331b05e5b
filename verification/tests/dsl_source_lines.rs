use rowly::process::CsvDocument;
use rowly::rowly_dsl::parser::source_lines;
use rowly::rowly_dsl::{parse, run, Expression, Statement};

fn open() -> CsvDocument {
    CsvDocument::open_bytes("lines.csv".to_string(), "a\n1\n".as_bytes()).unwrap()
}

fn texts(source: &str) -> Vec<(usize, String)> {
    source_lines(source)
        .into_iter()
        .map(|line| (line.number, line.text.into_iter().collect()))
        .collect()
}

#[test]
fn source_lines_skip_blanks_and_comments_and_keep_numbers() {
    let source = "VAR a = 1\n\n' a note\nRem skipped\nREM\n   CONST b = 2   \nremark = 3\n";
    assert_eq!(
        texts(source),
        vec![(1, "VAR a = 1".to_string()), (6, "CONST b = 2".to_string()), (7, "remark = 3".to_string())]
    );
}

#[test]
fn source_lines_of_blank_text_are_empty() {
    assert!(texts("").is_empty());
    assert!(texts("\n\n   \n").is_empty());
    assert_eq!(texts("x = 1"), vec![(1, "x = 1".to_string())]);
    assert_eq!(texts("\n\nx = 1\n"), vec![(3, "x = 1".to_string())]);
}

#[test]
fn a_source_of_comments_parses_to_the_empty_program() {
    let program = parse("' only a note\n\nRem and another\n").unwrap();
    assert!(program.classes.is_empty());
    assert!(program.functions.is_empty());
    assert!(program.statements.is_empty());
}

#[test]
fn a_source_of_comments_runs_without_events() {
    let mut document = open();
    let report = run("Rem nothing to do\n' still nothing\n", &mut document).unwrap();
    assert!(report.events.is_empty());
}

#[test]
fn field_assignment_splits_target_and_field() {
    let program = parse("Class Box\nField size = 1\nEnd Class\nVAR b = New Box()\n  b.size = 2\n").unwrap();
    match &program.statements[1] {
        Statement::SetField { target, field, .. } => {
            assert_eq!(target, "b");
            assert_eq!(field, "size");
        }
        other => panic!("unexpected statement {other:?}"),
    }
}

#[test]
fn parsed_expressions_keep_identifier_names() {
    let program = parse("VAR total = Count + Text.Length(name)\n").unwrap();
    match &program.statements[0] {
        Statement::Declare { value: Expression::Arithmetic { left, .. }, .. } => {
            assert!(matches!(left.as_ref(), Expression::Variable(name) if name == "Count"));
        }
        other => panic!("unexpected statement {other:?}"),
    }
    let error = parse("VAR x = \n").unwrap_err();
    assert_eq!(error.line(), 1);
    let error = parse("x = 1 +\n").unwrap_err();
    assert_eq!(error.line(), 1);
    assert!(error.message().contains("expected a value"));
}

#[test]
fn let_and_dim_are_refused_before_other_statements() {
    for source in ["LET x = 1", "Dim y = 2", "dim"] {
        let error = parse(source).unwrap_err();
        assert_eq!(error.line(), 1);
        assert_eq!(error.message(), "LET / DIM are not supported; use VAR or CONST");
    }
}

#[test]
fn an_empty_class_parses_to_a_class_without_members() {
    let program = parse("Class Empty\nEnd Class\n").unwrap();
    assert_eq!(program.classes.len(), 1);
    assert_eq!(program.classes[0].name, "Empty");
    assert!(program.classes[0].parent.is_none());
    assert!(program.classes[0].fields.is_empty());
    assert!(program.classes[0].methods.is_empty());
    let error = parse("Klass Empty\nEnd Class\n").unwrap_err();
    assert_eq!(error.line(), 1);
}
