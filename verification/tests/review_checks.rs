use rowly::process::{CellRange, CellRef, ColumnError, ColumnType, CsvDocument};
use rowly::project::{parent_path, project_root, resolve_project_reference};
use rowly::rowly_dsl::{parse, run, DeclarationKind, Expression, Statement};
use rowly::project::SourceKind;
use rowly::rowlyx::{
    check_archive_output, directory_child_step, pack_candidate, pack_step, DirectoryChild, PackReference,
    PackStep, RowlyxError, SkipReason,
};
use rowly::project::{check_script_location, ProjectError};

fn open(text: &str) -> CsvDocument {
    CsvDocument::open_bytes("data.csv".to_string(), text.as_bytes()).unwrap()
}

fn decimal_mismatches(values: &[&str]) -> Vec<String> {
    let mut text = String::from("amount\n");
    for value in values {
        text.push_str(value);
        text.push('\n');
    }
    let document = open(&text);
    let report = document.validate_column_type(0, ColumnType::Decimal).unwrap();
    report.mismatches().iter().map(|cell| cell.value().to_string()).collect()
}

#[test]
fn decimal_check_accepts_every_finite_double() {
    let accepted = [
        "1.5e308",
        "1.7976931348623157e308",
        "1.7976931348623158e308",
        "-1.7976931348623158e308",
        "179769313486231580793728971405303415079934132710037826936173778980444968292764750946649017977587207096330286416692887910946555547851940402630657488671505820681908902000708383676273854845817711531764475730270069855571366959622842914819860834936475292719074168444365510704342711559699508093042880177904174497791",
        "0.0000000000000000000000000000001e-400",
        "1e-999999999999999999999999999999999999",
        "0e99999999999999999999999999999999999999",
        ".5",
        "+3.",
    ];
    assert!(decimal_mismatches(&accepted).is_empty());
    let refused = [
        "1.7976931348623159e308",
        "179769313486231580793728971405303415079934132710037826936173778980444968292764750946649017977587207096330286416692887910946555547851940402630657488671505820681908902000708383676273854845817711531764475730270069855571366959622842914819860834936475292719074168444365510704342711559699508093042880177904174497792",
        "1e309",
        "1e99999999999999999999999999999999999999",
        "inf",
        "NaN",
        "1e",
        "abc",
    ];
    assert_eq!(decimal_mismatches(&refused), refused.iter().map(|v| v.to_string()).collect::<Vec<_>>());
    for value in accepted {
        assert!(value.parse::<f64>().is_ok_and(|x| x.is_finite()), "{value}");
    }
    for value in refused {
        assert!(!value.parse::<f64>().is_ok_and(|x| x.is_finite()), "{value}");
    }
}

#[test]
fn parents_skip_trailing_current_directories() {
    assert_eq!(parent_path("a/b/."), Some("a".to_string()));
    assert_eq!(parent_path("a/b/./"), Some("a".to_string()));
    assert_eq!(parent_path("a/."), Some(String::new()));
    assert_eq!(parent_path("/."), None);
    assert_eq!(parent_path("/"), None);
    assert_eq!(parent_path(""), None);
    assert_eq!(parent_path("."), Some(String::new()));
    assert_eq!(parent_path("./b"), Some(".".to_string()));
    assert_eq!(parent_path("a//b"), Some("a".to_string()));
    assert_eq!(parent_path("/a"), Some("/".to_string()));
    assert_eq!(parent_path("a/./b"), Some("a".to_string()));
    assert_eq!(parent_path("a/b/.."), Some("a/b".to_string()));
    assert_eq!(resolve_project_reference("a/b/.", "c"), "a/c");
    assert_eq!(resolve_project_reference("/work/p.rwprj", "data/a.csv"), "/work/data/a.csv");
    assert_eq!(project_root("a/p.rwprj/."), "a");
    for path in ["a/b/.", "a/b/./", "a/.", "/.", "/", "", ".", "./b", "a//b", "/a", "a/./b", "a/b/.."] {
        let expected = std::path::Path::new(path).parent().map(|p| p.to_str().unwrap().to_string());
        assert_eq!(parent_path(path), expected, "{path}");
    }
}

#[test]
fn a1_parsing_and_formatting_round_trip() {
    for (source, formatted) in [(" z9 ", "Z9"), ("aa10", "AA10"), ("XfD1048576", "XFD1048576")] {
        let reference: CellRef = source.parse().unwrap();
        assert_eq!(reference.to_string(), formatted);
        assert_eq!(reference.to_string().parse::<CellRef>().unwrap(), reference);
    }
    let range: CellRange = "B3:A1".parse().unwrap();
    assert_eq!(range.to_string(), "A1:B3");
}

#[test]
fn reversed_corners_span_the_same_cells() {
    let forward = CellRange::new(CellRef::new(0, 0), CellRef::new(1, 1));
    let backward = CellRange::new(CellRef::new(1, 1), CellRef::new(0, 0));
    assert_eq!(forward.iter(), backward.iter());
    assert_eq!(backward.iter().len(), 4);
}

#[test]
fn header_check_reports_the_lookup_error() {
    let document = open("a,b,a\n1,x,2\n");
    assert_eq!(
        document.validate_column_type_by_header("c", ColumnType::Integer).unwrap_err(),
        ColumnError::HeaderNotFound("c".to_string())
    );
    assert!(matches!(
        document.validate_column_type_by_header("a", ColumnType::Integer).unwrap_err(),
        ColumnError::AmbiguousHeader { header, columns } if header == "a" && columns == vec![0, 2]
    ));
    let report = document.validate_column_type_by_header("b", ColumnType::Integer).unwrap();
    assert_eq!(report.mismatches().len(), 1);
}

#[test]
fn history_flags_follow_edits_undo_redo_and_save() {
    let mut document = open("name,value\nAlice,1\n");
    assert!(!document.is_dirty() && !document.can_undo() && !document.can_redo());
    document.set_cell(1, 1, "1").unwrap();
    assert!(!document.is_dirty() && !document.can_undo(), "a no-op edit records nothing");
    document.set_cell_a1("B2", "2").unwrap();
    assert!(document.is_dirty() && document.can_undo() && !document.can_redo());
    assert_eq!(document.undo().unwrap(), true);
    assert!(!document.is_dirty() && document.can_redo());
    document.set_cell(1, 1, "1").unwrap();
    assert!(document.can_redo(), "a no-op edit keeps the redo branch");
    assert!(document.set_cell(5, 5, "x").is_err());
    assert!(document.can_redo() && !document.is_dirty(), "a failed edit changes nothing");
    assert_eq!(document.redo().unwrap(), true);
    assert!(document.is_dirty());
    document.mark_saved();
    assert!(!document.is_dirty() && document.can_undo() && !document.can_redo());
    assert_eq!(document.redo().unwrap(), false);
    assert!(!document.is_dirty() && document.can_undo());
    document.undo().unwrap();
    assert!(document.is_dirty());
    document.set_cell_ref(CellRef::new(0, 0), "header").unwrap();
    assert!(!document.can_redo(), "a new edit after undo drops the redo branch");
}

#[test]
fn transactions_keep_flags_and_group_edits() {
    let mut document = open("a,b\n1,2\n");
    document.begin_transaction().unwrap();
    assert!(!document.is_dirty() && !document.can_undo());
    assert!(document.begin_transaction().is_err());
    assert!(document.transaction_active());
    document.set_cell(1, 0, "x").unwrap();
    document.set_range_a1("A2:B2", "y").unwrap();
    assert!(document.is_dirty() && !document.can_undo());
    assert!(document.undo().is_err());
    assert!(document.transaction_active() && document.is_dirty());
    document.rollback_transaction().unwrap();
    assert!(!document.is_dirty() && !document.can_undo() && !document.can_redo());
    assert_eq!(document.cell(1, 0), Some("1"));

    document.begin_transaction().unwrap();
    document.set_cell(1, 0, "x").unwrap();
    document.set_cell(1, 1, "z").unwrap();
    document.commit_transaction().unwrap();
    assert!(document.is_dirty() && document.can_undo() && !document.can_redo());
    document.undo().unwrap();
    assert_eq!(document.cell(1, 0), Some("1"));
    assert_eq!(document.cell(1, 1), Some("2"));
    assert!(!document.is_dirty());
}

#[test]
fn failed_range_and_row_edits_keep_history() {
    let mut document = open("a,b\n1,2\n");
    document.set_cell(1, 0, "x").unwrap();
    document.undo().unwrap();
    assert!(document.set_range_a1("A1:C2", "v").is_err());
    assert!(document.delete_rows(1, 5).is_err());
    assert!(document.can_redo() && !document.is_dirty());
    assert_eq!(document.cell(0, 0), Some("a"));
}

#[test]
fn report_variables_are_the_global_bindings() {
    let mut document = open("a\n1\n");
    let report = run(
        "VAR total = Integer(\"0\")\nFor i = Integer(\"3\") To Integer(\"1\") Step -Integer(\"1\")\nVAR inner = i\ntotal = total + i\nNext\nDef F()\nVAR local = 1\nEnd Def\n",
        &mut document,
    )
    .unwrap();
    assert_eq!(report.variable("TOTAL"), Some("6"));
    assert_eq!(report.variable("i"), None);
    assert_eq!(report.variable("inner"), None);
    assert_eq!(report.variable("local"), None);
}

#[test]
fn class_members_come_from_their_lines_in_order() {
    let program = rowly::rowly_dsl::parse(
        "Class B Extends A\nField x = 1\nDef M()\nReturn\nEnd Def\nField y = 2\nEnd Class\nClass A\nEnd Class\nVAR v = 1\n",
    )
    .unwrap();
    assert_eq!(program.classes.len(), 2);
    let b = &program.classes[0];
    assert_eq!(b.name, "B");
    assert_eq!(b.parent.as_deref(), Some("A"));
    assert_eq!(b.fields.iter().map(|f| f.name.as_str()).collect::<Vec<_>>(), vec!["x", "y"]);
    assert_eq!(b.methods.iter().map(|m| m.name.as_str()).collect::<Vec<_>>(), vec!["M"]);
    assert_eq!(program.statements.len(), 1);
    let error = rowly::rowly_dsl::parse("VAR a = 1\nDef F()\nVAR b = 2\n").unwrap_err();
    assert_eq!(error.line(), 2);
}

#[test]
fn document_builtins_read_and_write_the_named_cells() {
    let mut document = open("a,b,c\n1,2,3\n");
    let report = run(
        "VAR r = RowCount()\nVAR c = ColumnCount()\nSetCellValueAt(Integer(\"2\"), Integer(\"3\"), \"z\")\nVAR v = CellValueAt(Integer(\"2\"), Integer(\"1\"))\nVAR i = ColumnIndex(\"b\")\n",
        &mut document,
    )
    .unwrap();
    assert_eq!(report.variable("r"), Some("2"));
    assert_eq!(report.variable("c"), Some("3"));
    assert_eq!(report.variable("v"), Some("1"));
    assert_eq!(report.variable("i"), Some("2"));
    assert_eq!(document.cell(1, 2), Some("z"));
    assert_eq!(document.cell(1, 1), Some("2"));
}

#[test]
fn column_edits_in_a_transaction_roll_back() {
    let mut document = open("a,b\n1,2\n3\n");
    document.begin_transaction().unwrap();
    document.insert_columns(1, 2).unwrap();
    assert_eq!(document.cell(0, 3), Some("b"));
    document.delete_columns(0, 1).unwrap();
    assert!(document.is_dirty() && !document.can_undo());
    document.rollback_transaction().unwrap();
    let rows: Vec<Vec<String>> = vec![
        vec!["a".to_string(), "b".to_string()],
        vec!["1".to_string(), "2".to_string()],
        vec!["3".to_string()],
    ];
    assert_eq!(document.rows(), &rows);
    assert!(!document.is_dirty() && !document.can_undo() && !document.can_redo());
}

#[test]
fn undo_and_redo_walk_every_step() {
    let mut document = open("a\n1\n");
    document.set_cell(1, 0, "x").unwrap();
    document.set_cell(1, 0, "y").unwrap();
    document.undo().unwrap();
    assert_eq!(document.cell(1, 0), Some("x"));
    assert!(document.can_undo() && document.can_redo());
    document.undo().unwrap();
    assert_eq!(document.cell(1, 0), Some("1"));
    assert!(!document.can_undo() && document.can_redo());
    document.redo().unwrap();
    document.redo().unwrap();
    assert_eq!(document.cell(1, 0), Some("y"));
    assert!(document.can_undo() && !document.can_redo());
}

#[test]
fn loops_with_counted_bounds_visit_each_value() {
    let mut document = open("n\na\nb\nc\nd\ne\n");
    let source = "For row = RowCount() To Integer(\"2\") Step -Integer(\"2\")\n    SetCellValueAt(row, Integer(\"1\"), \"x\")\nNext\nIf ColumnCount() = Integer(\"1\") Then\n    SetCellValueAt(Integer(\"1\"), Integer(\"1\"), \"one\")\nEnd If\n";
    run(source, &mut document).unwrap();
    let column: Vec<Option<&str>> = (0..6).map(|row| document.cell(row, 0)).collect();
    assert_eq!(column, vec![Some("one"), Some("x"), Some("b"), Some("x"), Some("d"), Some("x")]);
}

fn reference(path: &str, kind: SourceKind, external: bool) -> PackReference {
    PackReference { path: path.to_string(), kind, recursive: true, external }
}

#[test]
fn pack_steps_follow_the_reference_and_the_disk() {
    let root = "/work/p";
    let file = reference("/work/p/data/a.csv", SourceKind::File, false);
    let folder = reference("/work/p/data", SourceKind::Directory, false);
    assert_eq!(
        pack_step(&reference("/data/a.csv", SourceKind::File, true), root, true, false, false, false, true),
        PackStep::Skip(SkipReason::External)
    );
    assert_eq!(
        pack_step(&reference("/work/q/a.csv", SourceKind::File, false), root, true, false, false, false, true),
        PackStep::Skip(SkipReason::OutsideRoot)
    );
    assert_eq!(
        pack_step(&reference("/work/p", SourceKind::Directory, false), root, true, false, false, true, false),
        PackStep::Skip(SkipReason::ProjectRoot)
    );
    assert_eq!(pack_step(&file, root, false, false, false, false, false), PackStep::Skip(SkipReason::Missing));
    assert_eq!(
        pack_step(&file, root, true, true, false, false, true),
        PackStep::Refuse(RowlyxError::InvalidReference(
            "archive output would overwrite project data `/work/p/data/a.csv`".to_string()
        ))
    );
    assert_eq!(
        pack_step(&file, root, true, false, true, false, true),
        PackStep::Refuse(RowlyxError::UnsupportedLink("/work/p/data/a.csv".to_string()))
    );
    assert_eq!(
        pack_step(&file, root, true, false, false, true, false),
        PackStep::Refuse(RowlyxError::InvalidReference(
            "file reference is a directory: /work/p/data/a.csv".to_string()
        ))
    );
    assert_eq!(
        pack_step(&folder, root, true, false, false, false, true),
        PackStep::Refuse(RowlyxError::InvalidReference("directory reference is a file: /work/p/data".to_string()))
    );
    assert_eq!(pack_step(&file, root, true, false, false, false, true), PackStep::AddFile("data/a.csv".to_string()));
    assert_eq!(
        pack_step(&folder, root, true, false, false, true, false),
        PackStep::AddDirectory { relative: "data".to_string(), recursive: true }
    );
    assert_eq!(
        pack_step(&file, root, true, false, false, false, false),
        PackStep::Refuse(RowlyxError::InvalidReference("/work/p/data/a.csv".to_string()))
    );
    assert_eq!(pack_candidate(&file, root), Some("data/a.csv".to_string()));
    assert_eq!(pack_candidate(&reference("/work/p/../q", SourceKind::File, false), root), None);
}

#[test]
fn simple_lines_and_definitions_parse_to_their_program() {
    let program = parse(
        "Var total = 5\nConst label = total\nDef Double(value)\n    Return value\nEnd Def\nReturn",
    )
    .unwrap();
    assert!(program.classes.is_empty());
    assert_eq!(program.functions.len(), 1);
    assert_eq!(program.functions[0].name, "Double");
    assert_eq!(program.functions[0].parameters, vec!["value".to_string()]);
    assert_eq!(
        program.functions[0].body,
        vec![Statement::Return { value: Some(Expression::Variable("value".to_string())) }]
    );
    assert_eq!(
        program.statements,
        vec![
            Statement::Declare {
                kind: DeclarationKind::Var,
                name: "total".to_string(),
                value: Expression::Literal("5".to_string()),
            },
            Statement::Declare {
                kind: DeclarationKind::Const,
                name: "label".to_string(),
                value: Expression::Variable("total".to_string()),
            },
            Statement::Return { value: None },
        ]
    );
}

#[test]
fn assignment_lines_parse_to_assignments() {
    let program = parse("Var total = 5\ntotal = 7\nlabel = total").unwrap();
    assert_eq!(
        program.statements,
        vec![
            Statement::Declare {
                kind: DeclarationKind::Var,
                name: "total".to_string(),
                value: Expression::Literal("5".to_string()),
            },
            Statement::Assign { name: "total".to_string(), value: Expression::Literal("7".to_string()) },
            Statement::Assign { name: "label".to_string(), value: Expression::Variable("total".to_string()) },
        ]
    );
}

#[test]
fn unclosed_definition_after_other_blocks_is_reported_at_its_line() {
    let error = parse("Def First()\nReturn\nEnd Def\nVar x = 1\nDef Second(a)\nReturn a\n").unwrap_err();
    assert_eq!(error.line, 5);
    assert_eq!(error.message, "missing `End Def`");
}

#[test]
fn classes_with_fields_and_methods_parse() {
    let program = parse("Class Point\nField x = 0\nField y = 1\nDef Show()\nReturn x\nEnd Def\nEnd Class").unwrap();
    assert_eq!(program.classes.len(), 1);
    let class = &program.classes[0];
    assert_eq!(class.name, "Point");
    assert!(class.parent.is_none());
    let names: Vec<&str> = class.fields.iter().map(|field| field.name.as_str()).collect();
    assert_eq!(names, vec!["x", "y"]);
    assert_eq!(class.fields[0].default, Expression::Literal("0".to_string()));
    assert_eq!(class.fields[1].default, Expression::Literal("1".to_string()));
    assert_eq!(class.methods.len(), 1);
    assert_eq!(class.methods[0].name, "Show");
    assert!(class.methods[0].parameters.is_empty());
    assert_eq!(
        class.methods[0].body,
        vec![Statement::Return { value: Some(Expression::Variable("x".to_string())) }]
    );
}

#[test]
fn directory_children_are_linked_skipped_descended_or_added() {
    assert_eq!(
        directory_child_step("/p", "/p/data/link.csv", true, false, true, true),
        DirectoryChild::Refuse(RowlyxError::UnsupportedLink("/p/data/link.csv".to_string()))
    );
    assert_eq!(directory_child_step("/p", "/p/data/sub", false, true, false, false), DirectoryChild::Skip);
    assert_eq!(directory_child_step("/p", "/p/data/sub", false, true, false, true), DirectoryChild::Descend);
    assert_eq!(
        directory_child_step("/p", "/p/data/a.csv", false, false, true, false),
        DirectoryChild::AddFile("data/a.csv".to_string())
    );
    assert_eq!(
        directory_child_step("/p", "/q/a.csv", false, false, true, false),
        DirectoryChild::Refuse(RowlyxError::InvalidReference("/q/a.csv".to_string()))
    );
    assert_eq!(directory_child_step("/p", "/p/fifo", false, false, false, true), DirectoryChild::Skip);
}

#[test]
fn archive_output_may_not_be_the_manifest() {
    assert_eq!(
        check_archive_output("/p/project.rowly.json", "/p/project.rowly.json"),
        Err(RowlyxError::InvalidReference("archive output would overwrite the project manifest".to_string()))
    );
    assert_eq!(check_archive_output("/p/out.rowlyx", "/p/project.rowly.json"), Ok(()));
}

#[test]
fn script_locations_through_links_or_outside_are_refused() {
    assert_eq!(
        check_script_location("/p", "/p", "/p/s/a.lua", Some("/p/s")),
        Err(ProjectError::Schema("project script path contains a symbolic link: /p/s".to_string()))
    );
    assert_eq!(check_script_location("/p", "/p/scripts", "/p/scripts/a.lua", None), Ok(()));
    assert_eq!(
        check_script_location("/p", "/elsewhere", "/p/x/a.lua", None),
        Err(ProjectError::Schema("project script path resolves outside the project: /p/x/a.lua".to_string()))
    );
}

#[test]
fn variables_are_found_whatever_the_case_of_their_name() {
    let mut document = open("a\n1\n");
    let report = run("Var Total = 5", &mut document).unwrap();
    assert_eq!(report.variable("Total"), Some("5"));
    assert_eq!(report.variable("TOTAL"), Some("5"));
    assert_eq!(report.variable("total"), Some("5"));
    assert_eq!(report.variable("other"), None);
}
