use rowly::json::{JsonNumber, JsonValue};
use rowly::process::{ColumnType, CsvDocument};
use rowly::project::{
    generated_column_types_script, normalize_project_path, parse_generated_column_types,
    project_root, resolve_project_reference, restore_generated_column_types,
    validate_project_relative, ProjectError, ProjectScripts, ProjectSource, RowlyProject,
    SourceKind,
};

fn object(members: Vec<(&str, JsonValue)>) -> JsonValue {
    JsonValue::Object(
        members
            .into_iter()
            .map(|(key, value)| (key.to_string(), value))
            .collect(),
    )
}

fn text(value: &str) -> JsonValue {
    JsonValue::String(value.to_string())
}

fn scripts_json() -> JsonValue {
    object(vec![
        ("init", text("data/scripts/rowlydsl/init.rly")),
        ("generated", text("data/scripts/rowlydsl/init/generated.rly")),
        ("user", text("data/scripts/rowlydsl/init/user.rly")),
        ("macros", text("data/scripts/rowlydsl/macros")),
    ])
}

fn manifest(sources: Vec<JsonValue>) -> JsonValue {
    object(vec![
        ("format", text("rowly-project")),
        ("version", JsonValue::Number(JsonNumber::PosInt(1))),
        ("name", text("売上")),
        ("sources", JsonValue::Array(sources)),
        ("scripts", scripts_json()),
        ("history", text("data/history")),
    ])
}

fn schema_message(result: Result<RowlyProject, ProjectError>) -> String {
    match result {
        Err(ProjectError::Schema(message)) => message,
        other => panic!("expected a schema error, got {:?}", other),
    }
}

fn sample_project() -> RowlyProject {
    RowlyProject {
        name: "sales".to_string(),
        sources: vec![
            ProjectSource {
                id: "main".to_string(),
                kind: SourceKind::File,
                path: "data/main.csv".to_string(),
                recursive: false,
            },
            ProjectSource {
                id: "archive".to_string(),
                kind: SourceKind::Directory,
                path: "/srv/archive".to_string(),
                recursive: true,
            },
        ],
        scripts: ProjectScripts::standard(),
        history: "data/history".to_string(),
    }
}

#[test]
fn manifest_reads_sources_scripts_and_history() {
    let value = manifest(vec![
        object(vec![
            ("id", text("main")),
            ("type", text("file")),
            ("path", text("data/main.csv")),
        ]),
        object(vec![
            ("id", text("archive")),
            ("type", text("directory")),
            ("path", text("archive")),
            ("recursive", JsonValue::Bool(true)),
        ]),
    ]);
    let project = RowlyProject::from_json(&value).unwrap();
    assert_eq!(project.name, "売上");
    assert_eq!(project.sources.len(), 2);
    assert_eq!(project.sources[0].kind, SourceKind::File);
    assert!(!project.sources[0].recursive);
    assert_eq!(project.sources[1].kind, SourceKind::Directory);
    assert!(project.sources[1].recursive);
    assert_eq!(project.scripts, ProjectScripts::standard());
    assert_eq!(project.history, "data/history");
}

#[test]
fn manifest_errors_name_the_first_problem() {
    assert_eq!(
        schema_message(RowlyProject::from_json(&JsonValue::Null)),
        "project must be a JSON object"
    );
    assert_eq!(
        schema_message(RowlyProject::from_json(&object(vec![("format", text("other"))]))),
        "unsupported project format `other`"
    );
    assert_eq!(
        schema_message(RowlyProject::from_json(&object(vec![("format", text("  "))]))),
        "missing or empty string `format`"
    );
    assert_eq!(
        schema_message(RowlyProject::from_json(&object(vec![(
            "format",
            text("rowly-project")
        )]))),
        "missing integer version"
    );
    assert_eq!(
        schema_message(RowlyProject::from_json(&object(vec![
            ("format", text("rowly-project")),
            ("version", JsonValue::Number(JsonNumber::PosInt(2))),
        ]))),
        "unsupported project version 2"
    );
    let bad_type = manifest(vec![object(vec![
        ("id", text("a")),
        ("type", text("url")),
        ("path", text("x")),
    ])]);
    assert_eq!(
        schema_message(RowlyProject::from_json(&bad_type)),
        "unsupported source type `url`"
    );
    let recursive_file = manifest(vec![object(vec![
        ("id", text("a")),
        ("type", text("file")),
        ("path", text("x.csv")),
        ("recursive", JsonValue::Bool(true)),
    ])]);
    assert_eq!(
        schema_message(RowlyProject::from_json(&recursive_file)),
        "file source `a` cannot be recursive"
    );
    let duplicate = manifest(vec![
        object(vec![("id", text("a")), ("type", text("file")), ("path", text("x.csv"))]),
        object(vec![("id", text("a")), ("type", text("file")), ("path", text("y.csv"))]),
    ]);
    assert_eq!(
        schema_message(RowlyProject::from_json(&duplicate)),
        "source id `a` is empty or duplicated"
    );
    assert_eq!(
        schema_message(RowlyProject::from_json(&manifest(vec![JsonValue::Bool(true)]))),
        "each source must be an object"
    );
}

#[test]
fn saved_manifest_reads_back_as_the_same_project() {
    let project = sample_project();
    let value = project.to_json().unwrap();
    assert_eq!(RowlyProject::from_json(&value).unwrap(), project);
}

#[test]
fn invalid_project_is_not_saved() {
    let mut project = sample_project();
    project.name = " ".to_string();
    assert!(matches!(project.to_json(), Err(ProjectError::Schema(message)) if message == "name must not be empty"));
    let mut project = sample_project();
    project.history = String::new();
    assert!(matches!(
        project.validate(),
        Err(ProjectError::Schema(message)) if message == "script and history paths must not be empty"
    ));
}

#[test]
fn references_resolve_against_the_manifest_directory() {
    assert_eq!(resolve_project_reference("/work/sales.rwprj", "data/a.csv"), "/work/data/a.csv");
    assert_eq!(resolve_project_reference("sales.rwprj", "data/a.csv"), "data/a.csv");
    assert_eq!(resolve_project_reference("/work/sales.rwprj", "/srv/a.csv"), "/srv/a.csv");
    assert_eq!(resolve_project_reference("/sales.rwprj", "a.csv"), "/a.csv");
    assert_eq!(resolve_project_reference("", "a.csv"), "./a.csv");
    assert_eq!(project_root("sales.rwprj"), ".");
    assert_eq!(project_root("/work/p/sales.rwprj"), "/work/p");
    let resolved = sample_project().resolve_sources("/work/sales.rwprj");
    assert_eq!(resolved[0].path, "/work/data/main.csv");
    assert_eq!(resolved[1].path, "/srv/archive");
    assert!(resolved[1].recursive);
}

#[test]
fn project_relative_paths_stay_inside_the_project() {
    assert!(validate_project_relative("data/a.rly").is_ok());
    assert!(matches!(
        validate_project_relative("/etc/a.rly"),
        Err(ProjectError::Schema(message)) if message == "project script path must be relative: /etc/a.rly"
    ));
    assert!(matches!(
        validate_project_relative("../a.rly"),
        Err(ProjectError::Schema(message)) if message == "project script path escapes the project: ../a.rly"
    ));
    assert!(matches!(
        validate_project_relative("a/.."),
        Err(ProjectError::Schema(message)) if message == "project script path must not be empty"
    ));
    assert_eq!(
        normalize_project_path("a/./b/../c"),
        Some(vec!["a".to_string(), "c".to_string()])
    );
    assert_eq!(normalize_project_path("../a"), None);
}

#[test]
fn standard_layout_imports_generated_then_user_script() {
    let scripts = ProjectScripts::standard();
    assert!(scripts.validate_script_layout().is_ok());
    assert_eq!(
        scripts.expected_init_contents().unwrap(),
        "IMPORT(\"data/scripts/rowlydsl/init/generated.rly\")\nIMPORT(\"data/scripts/rowlydsl/init/user.rly\")\n"
    );
    let expected = scripts.expected_init_contents().unwrap();
    assert!(scripts.validate_init_manifest("init.rly", &expected).is_ok());
    assert!(matches!(
        scripts.validate_init_manifest("init.rly", "RUN()\n"),
        Err(ProjectError::Schema(message)) if message == "project init manifest `init.rly` contains unsupported content"
    ));
}

#[test]
fn script_layout_rejects_shared_paths_and_init_files_in_macros() {
    let mut scripts = ProjectScripts::standard();
    scripts.user = "data/scripts/rowlydsl/./init/generated.rly".to_string();
    assert!(matches!(
        scripts.validate_script_layout(),
        Err(ProjectError::Schema(message)) if message == "project script paths must be distinct"
    ));
    let mut scripts = ProjectScripts::standard();
    scripts.user = "data/scripts/rowlydsl/macros/user.rly".to_string();
    assert!(matches!(
        scripts.validate_script_layout(),
        Err(ProjectError::Schema(message)) if message == "macros directory must not contain init files"
    ));
}

#[test]
fn generated_column_types_round_trip_through_the_script() {
    let mut document = CsvDocument::open_bytes("a.csv".to_string(), "名前,年齢\n田中,20\n".as_bytes()).unwrap();
    document
        .set_column_type_declaration_by_header("年齢", ColumnType::Integer)
        .unwrap();
    document
        .set_column_type_declaration_by_header("名前", ColumnType::String)
        .unwrap();
    let script = generated_column_types_script(&document).unwrap();
    assert_eq!(
        script,
        "SET_COLUMN_TYPE([\"名前\",\"String\"])\nSET_COLUMN_TYPE([\"年齢\",\"Integer\"])\n"
    );

    let mut reopened = CsvDocument::open_bytes("a.csv".to_string(), "名前,年齢\n田中,20\n".as_bytes()).unwrap();
    restore_generated_column_types(&mut reopened, &script).unwrap();
    assert_eq!(
        reopened.column_type_declaration_by_header("年齢").unwrap(),
        Some(ColumnType::Integer)
    );
    assert_eq!(
        reopened.column_type_declaration_by_header("名前").unwrap(),
        Some(ColumnType::String)
    );
}

#[test]
fn generated_script_errors_name_the_line() {
    let document = CsvDocument::open_bytes("a.csv".to_string(), "a,b\n1,2\n".as_bytes()).unwrap();
    let message = |text: &str| match parse_generated_column_types(text, &document) {
        Err(ProjectError::Schema(message)) => message,
        other => panic!("expected a schema error, got {:?}", other),
    };
    assert_eq!(message("\nRUN(1)\n"), "unsupported generated init directive on line 2");
    assert!(message("SET_COLUMN_TYPE([1])").starts_with("invalid generated init line 1: "));
    assert_eq!(
        message("SET_COLUMN_TYPE([\"a\"])"),
        "SET_COLUMN_TYPE on line 1 requires a header and type"
    );
    assert_eq!(
        message("SET_COLUMN_TYPE([\"a\",\"Float\"])"),
        "unsupported column type `Float`"
    );
    assert_eq!(
        message("SET_COLUMN_TYPE([\"a\",\"Integer\"])\nSET_COLUMN_TYPE([\"a\",\"String\"])"),
        "generated init declares column `a` more than once"
    );
    assert_eq!(
        message("SET_COLUMN_TYPE([\"z\",\"Integer\"])"),
        "generated column `z` cannot be restored: column header `z` was not found"
    );
    assert_eq!(
        parse_generated_column_types("  \n SET_COLUMN_TYPE([\"b\",\"Boolean\"])  \n", &document).unwrap(),
        vec![("b".to_string(), ColumnType::Boolean)]
    );
}
