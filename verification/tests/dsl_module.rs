use rowly::rowly_dsl::{parse, ColumnSelector, Condition, Expression, Statement};

#[test]
fn rowly_dsl_parses_basic_style_if_column_checks_and_range_set() {
    let program = parse(
        r#"
            If This.Worksheet.Column(1).Title = "名前" Then
                This.Worksheet.Column(1).Type = String
                This.Worksheet.Column(1).Check.Japanese
            End If

            This.Worksheet.Editor.Cell(A2 To A3).Value.Set = 8
        "#,
    )
    .unwrap();

    assert_eq!(program.statements().len(), 2);
    let Statement::If { condition, body, .. } = &program.statements()[0] else {
        panic!("expected if statement");
    };
    assert_eq!(
        condition,
        &Condition::ColumnTitleEquals {
            selector: ColumnSelector::Index(0),
            expected: Expression::Literal("名前".into()),
        }
    );
    assert_eq!(body.len(), 2);
    assert_eq!(
        program.statements()[1],
        Statement::SetRangeValue {
            range: "A2:A3".parse().unwrap(),
            value: Expression::Literal("8".into()),
        }
    );
}

#[test]
fn rowly_dsl_reports_missing_end_if_at_opening_line() {
    let error = parse(
        r#"
            If This.Worksheet.Column("名前").Exists Then
                This.Worksheet.Column("名前").Type = String
        "#,
    )
    .unwrap_err();

    assert_eq!(error.line(), 2);
    assert!(error.message().contains("End If"));
}
