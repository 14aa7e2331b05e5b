use rowly::process::CsvDocument;
use rowly::rowly_dsl::parse;
use rowly::rowly_dsl::runtime::{Flow, Runtime};
use rowly::rowly_dsl::value::Value;

fn open(source: &str) -> CsvDocument {
    CsvDocument::open_bytes("statements.csv".to_string(), source.as_bytes()).unwrap()
}

fn fresh_runtime() -> Runtime {
    Runtime {
        scopes: vec![Vec::new()],
        objects: Vec::new(),
        events: Vec::new(),
        method_context: Vec::new(),
    }
}

#[test]
fn declaration_then_assignment_update_the_innermost_binding() {
    let program = parse("VAR Count = Integer(\"1\")\ncount = count + Integer(\"2\")\n").unwrap();
    let mut document = open("a\n1\n");
    let mut runtime = fresh_runtime();

    let first = runtime.execute_statement(&program, &mut document, &program.statements[0], 0);
    assert!(matches!(first, Ok(Flow::Continue)));
    assert_eq!(runtime.scopes[0].len(), 1);
    assert_eq!(runtime.scopes[0][0].0, "count");
    assert!(matches!(runtime.scopes[0][0].1.value, Value::Integer(1)));

    let second = runtime.execute_statement(&program, &mut document, &program.statements[1], 0);
    assert!(matches!(second, Ok(Flow::Continue)));
    assert_eq!(runtime.scopes[0].len(), 1);
    assert!(matches!(runtime.scopes[0][0].1.value, Value::Integer(3)));
    assert_eq!(runtime.events.len(), 2);
}

#[test]
fn range_statement_with_a_literal_fills_the_range() {
    let program = parse("This.Worksheet.Editor.Cell(A2 To B3).Value.Set = \"x\"\n").unwrap();
    let mut document = open("a,b\n1,2\n3,4\n");
    let mut runtime = fresh_runtime();

    let result = runtime.execute_statement(&program, &mut document, &program.statements[0], 0);
    assert!(matches!(result, Ok(Flow::Continue)));
    for cell in ["A2", "B2", "A3", "B3"] {
        assert_eq!(document.cell_a1(cell).unwrap(), Some("x"));
    }
    assert_eq!(document.cell_a1("A1").unwrap(), Some("a"));
    assert_eq!(runtime.events.len(), 1);
}
