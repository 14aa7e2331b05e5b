use rowly::process::CsvDocument;
use rowly::rowly_dsl::{run};

fn open(source: &str) -> CsvDocument {
    CsvDocument::open_bytes("conditions.csv".to_string(), source.as_bytes()).unwrap()
}

#[test]
fn else_executes_when_condition_is_false() {
    let mut document = open("値\n1\n");
    let report = run(
        r#"
            If "a" = "b" Then
                VAR result = "then"
            Else
                VAR result = "else"
            End If
        "#,
        &mut document,
    )
    .unwrap();

    assert_eq!(report.variable("result"), Some("else"));
}

#[test]
fn logical_precedence_is_not_then_and_then_or() {
    let mut document = open("値\n1\n");
    let report = run(
        r#"
            If Not "a" = "b" And "x" = "x" Or "z" = "q" Then
                VAR result = "yes"
            Else
                VAR result = "no"
            End If
        "#,
        &mut document,
    )
    .unwrap();

    assert_eq!(report.variable("result"), Some("yes"));
}

#[test]
fn and_and_or_short_circuit_rhs() {
    let mut document = open("値\n1\n");
    let report = run(
        r#"
            If "a" != "a" And missing = "boom" Then
                VAR first = "bad"
            Else
                VAR first = "ok"
            End If

            If "a" = "a" Or missing = "boom" Then
                VAR second = "ok"
            End If
        "#,
        &mut document,
    )
    .unwrap();

    assert_eq!(report.variable("first"), Some("ok"));
    assert_eq!(report.variable("second"), Some("ok"));
}

#[test]
fn comparison_operators_use_text_ordering() {
    let mut document = open("値\n1\n");
    let report = run(
        r#"
            If "a" < "b" And "b" <= "b" And "c" > "b" And "c" >= "c" And "a" != "z" Then
                VAR result = "ordered"
            End If
        "#,
        &mut document,
    )
    .unwrap();

    assert_eq!(report.variable("result"), Some("ordered"));
}

#[test]
fn parenthesized_conditions_override_precedence() {
    let mut document = open("値\n1\n");
    let report = run(
        r#"
            If ("a" = "b" Or "x" = "x") And Not ("q" = "q") Then
                VAR result = "bad"
            Else
                VAR result = "good"
            End If
        "#,
        &mut document,
    )
    .unwrap();

    assert_eq!(report.variable("result"), Some("good"));
}

#[test]
fn class_methods_use_the_same_condition_evaluator() {
    let mut document = open("値\n1\n");
    let report = run(
        r#"
            Class Choice
                Field value = "b"

                Def Pick()
                    If Self.value >= "b" And Not Self.value = "z" Then
                        Return "match"
                    Else
                        Return "fallback"
                    End If
                End Def
            End Class

            VAR choice = New Choice()
            VAR result = choice.Pick()
        "#,
        &mut document,
    )
    .unwrap();

    assert_eq!(report.variable("result"), Some("match"));
}

#[test]
fn else_supports_nested_if_blocks() {
    let mut document = open("値\n1\n");
    let report = run(
        r#"
            If "outer" = "outer" Then
                If "inner" != "inner" Then
                    VAR result = "bad"
                Else
                    VAR result = "nested"
                End If
            Else
                VAR result = "bad"
            End If
        "#,
        &mut document,
    )
    .unwrap();

    assert_eq!(report.variable("result"), Some("nested"));
}
