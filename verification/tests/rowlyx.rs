use rowly::json::{JsonNumber, JsonValue};
use rowly::project::{ProjectScripts, ProjectSource, RowlyProject, SourceKind};
use rowly::rowlyx::{
    check_entries, extraction_target, lexical_relative, pack_references, safe_relative_path,
    zip_name, ArchiveEntry, RowlyxArchive, RowlyxError,
};

fn entry(name: &str) -> ArchiveEntry {
    ArchiveEntry {
        name: name.to_string(),
        enclosed_name: Some(name.to_string()),
        is_dir: name.ends_with('/'),
        unix_mode: None,
    }
}

#[test]
fn archive_entry_paths_must_stay_inside_the_archive() {
    assert!(safe_relative_path("data/a.csv"));
    assert!(safe_relative_path("データ/a.csv"));
    assert!(safe_relative_path("a/./b"));
    assert!(!safe_relative_path(""));
    assert!(!safe_relative_path("/etc/passwd"));
    assert!(!safe_relative_path("a/../b"));
    assert!(!safe_relative_path("./a"));
    assert!(!safe_relative_path("C:/a"));
    assert!(!safe_relative_path("a\\b"));
    assert_eq!(zip_name("a\\b/c"), "a/b/c");
}

#[test]
fn archive_needs_exactly_one_top_level_manifest() {
    let entries = vec![entry("sales.rwprj"), entry("data/"), entry("data/a.csv"), entry("data/b.rwprj")];
    assert_eq!(check_entries(&entries).unwrap(), "sales.rwprj");

    let none = vec![entry("data/a.csv")];
    assert_eq!(
        check_entries(&none).unwrap_err(),
        RowlyxError::ProjectDefinitionCount(0)
    );
    assert_eq!(
        RowlyxError::ProjectDefinitionCount(2).to_string(),
        "archive must contain exactly one `.rwprj` manifest, found 2"
    );
}

#[test]
fn unsafe_duplicate_and_linked_entries_are_refused() {
    let mut unsafe_entry = entry("../x");
    assert_eq!(
        check_entries(&vec![unsafe_entry.clone()]).unwrap_err(),
        RowlyxError::UnsafeEntry("../x".to_string())
    );
    unsafe_entry.enclosed_name = None;
    assert!(matches!(check_entries(&vec![unsafe_entry]), Err(RowlyxError::UnsafeEntry(_))));
    assert_eq!(
        check_entries(&vec![entry("a.rwprj"), entry("a.rwprj")]).unwrap_err(),
        RowlyxError::DuplicateEntry("a.rwprj".to_string())
    );
    let mut link = entry("link");
    link.unix_mode = Some(0o120777);
    assert_eq!(
        check_entries(&vec![link.clone()]).unwrap_err(),
        RowlyxError::UnsupportedLink("link".to_string())
    );
    assert_eq!(
        extraction_target("/tmp/out", &link).unwrap_err(),
        RowlyxError::UnsupportedLink("link".to_string())
    );
    assert_eq!(
        extraction_target("/tmp/out", &entry("data/a.csv")).unwrap(),
        "/tmp/out/data/a.csv"
    );
}

#[test]
fn archive_is_accepted_only_with_a_valid_manifest() {
    let error = RowlyxArchive::accept("a.rowlyx".to_string(), "a.rwprj".to_string(), &JsonValue::Null)
        .unwrap_err();
    assert_eq!(
        error,
        RowlyxError::Manifest("invalid Rowly project schema: project must be a JSON object".to_string())
    );
    let object = |members: Vec<(&str, JsonValue)>| {
        JsonValue::Object(members.into_iter().map(|(k, v)| (k.to_string(), v)).collect())
    };
    let text = |value: &str| JsonValue::String(value.to_string());
    let manifest = object(vec![
        ("format", text("rowly-project")),
        ("version", JsonValue::Number(JsonNumber::PosInt(1))),
        ("name", text("p")),
        ("sources", JsonValue::Array(vec![])),
        (
            "scripts",
            object(vec![
                ("init", text("s/init.rly")),
                ("generated", text("s/init/generated.rly")),
                ("user", text("s/init/user.rly")),
                ("macros", text("s/macros")),
            ]),
        ),
        ("history", text("history")),
    ]);
    let archive = RowlyxArchive::accept("a.rowlyx".to_string(), "a.rwprj".to_string(), &manifest).unwrap();
    assert_eq!(archive.project_entry(), "a.rwprj");
    assert_eq!(archive.extracted_project_path("/tmp/x"), "/tmp/x/a.rwprj");
}

#[test]
fn references_are_taken_relative_to_the_project_root() {
    assert_eq!(lexical_relative("/work/p", "/work/p/data/a.csv"), Some("data/a.csv".to_string()));
    assert_eq!(lexical_relative("/work/p", "data/./b/../a.csv"), Some("data/a.csv".to_string()));
    assert_eq!(lexical_relative("/work/p", "/work/other/a.csv"), None);
    assert_eq!(lexical_relative("/work/p", "../a.csv"), None);
    assert_eq!(lexical_relative("/work/p", "/work/p"), Some(String::new()));
}

#[test]
fn packing_visits_sources_then_scripts_then_history() {
    let project = RowlyProject {
        name: "p".to_string(),
        sources: vec![ProjectSource {
            id: "ext".to_string(),
            kind: SourceKind::File,
            path: "/srv/a.csv".to_string(),
            recursive: false,
        }],
        scripts: ProjectScripts::standard(),
        history: "history".to_string(),
    };
    let references = pack_references(&project, "/work/p/p.rwprj");
    assert_eq!(references.len(), 6);
    assert!(references[0].external);
    assert_eq!(references[0].path, "/srv/a.csv");
    assert_eq!(references[1].path, "/work/p/data/scripts/rowlydsl/init.rly");
    assert_eq!(references[4].kind, SourceKind::Directory);
    assert!(references[4].recursive);
    assert_eq!(references[5].path, "/work/p/history");
    assert!(!references[5].external);
}
