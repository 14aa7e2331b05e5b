use rowly::gui::{GridKeys, RowlyApp, WorkspaceMode};
use rowly::process::{CellRef, CsvDocument};

fn open_app(source: &str) -> RowlyApp {
    let mut app = RowlyApp::new();
    app.path_input = "  data.csv ".to_string();
    let path = app.requested_path();
    assert_eq!(path, "data.csv");
    let document = CsvDocument::open_bytes(path.clone(), source.as_bytes());
    app.opened(path, document);
    app
}

fn keys() -> GridKeys {
    GridKeys { undo: false, redo: false, cancel: false, direction: None, edit: false, shift: false }
}

#[test]
fn new_editor_waits_for_a_document() {
    let app = RowlyApp::new();
    assert!(app.document.is_none());
    assert_eq!(app.status, "CSV ファイルを開いてください");
    assert_eq!(app.reference_input, "A1");
    assert_eq!(app.mode, WorkspaceMode::TableEditor);
}

#[test]
fn opening_a_document_selects_its_first_cell() {
    let app = open_app("a,b\n1,2\n");
    assert_eq!(app.status, "data.csv を開きました");
    assert_eq!(app.path_input, "data.csv");
    assert_eq!(app.selection, CellRef::new(0, 0));
    assert_eq!(app.reference_input, "A1");
}

#[test]
fn editing_a_cell_then_undo_and_redo_update_the_status() {
    let mut app = open_app("a,b\n1,2\n");
    app.set_cell(1, 1, "9");
    assert_eq!(app.status, "Cell updated (A1)");
    assert_eq!(app.document.as_ref().unwrap().cell(1, 1), Some("9"));

    app.undo();
    assert_eq!(app.status, "Undone");
    assert_eq!(app.document.as_ref().unwrap().cell(1, 1), Some("2"));
    app.undo();
    assert_eq!(app.status, "Nothing to undo");
    app.redo();
    assert_eq!(app.status, "Redone");
    assert_eq!(app.document.as_ref().unwrap().cell(1, 1), Some("9"));

    app.set_cell(5, 0, "x");
    assert_eq!(app.status, "failed to edit CSV: cell `A6` is outside the existing CSV table");
}

#[test]
fn navigation_selects_the_named_cell_inside_the_table() {
    let mut app = open_app("a,b\n1,2\n3,4\n");
    app.reference_input = "b2".to_string();
    app.navigate_to_cell();
    assert_eq!(app.selection, CellRef::new(1, 1));
    assert_eq!(app.status, "Selected B2");

    app.reference_input = "Z99".to_string();
    app.navigate_to_cell();
    assert_eq!(app.selection, CellRef::new(2, 1));
    assert_eq!(app.reference_input, "B3");

    app.reference_input = "1A".to_string();
    app.navigate_to_cell();
    assert_eq!(app.status, "invalid cell reference `1A`");
    assert_eq!(app.selection, CellRef::new(2, 1));
}

#[test]
fn structural_commands_keep_the_selection_inside_the_table() {
    let mut app = open_app("a,b\n1,2\n3,4\n");
    app.set_selection(CellRef::new(2, 1), false);
    app.delete_row();
    assert_eq!(app.status, "Deleted row");
    assert_eq!(app.selection, CellRef::new(1, 1));
    app.delete_column();
    assert_eq!(app.status, "Deleted column");
    assert_eq!(app.selection, CellRef::new(1, 0));
    app.insert_row();
    assert_eq!(app.status, "Inserted row");
    assert_eq!(app.document.as_ref().unwrap().row_count(), 3);
    app.insert_column();
    assert_eq!(app.status, "Inserted column");
    assert_eq!(app.document.as_ref().unwrap().column_count(), 2);

    let mut empty = RowlyApp::new();
    empty.insert_row();
    assert_eq!(empty.status, "CSV ファイルを開いてください");
}

#[test]
fn grid_keys_move_edit_and_undo() {
    let mut app = open_app("a,b\n1,2\n");
    app.handle_grid_keys(GridKeys { direction: Some((1, 1)), ..keys() });
    assert_eq!(app.selection, CellRef::new(1, 1));
    app.handle_grid_keys(GridKeys { edit: true, ..keys() });
    assert!(app.editing);
    assert_eq!(app.edit_value, "2");
    app.handle_grid_keys(GridKeys { undo: true, ..keys() });
    assert!(app.editing);

    let mut ragged = open_app("a,b\n1\n");
    ragged.set_selection(CellRef::new(1, 1), false);
    ragged.handle_grid_keys(GridKeys { edit: true, ..keys() });
    assert!(!ragged.editing);
    assert_eq!(ragged.status, "B2 is outside this CSV row");
}

#[test]
fn saving_gives_the_bytes_and_marks_the_document_saved() {
    let mut app = open_app("a,b\n1,2\n");
    app.set_cell(1, 0, "7");
    assert!(app.document.as_ref().unwrap().is_dirty());
    let bytes = app.save_bytes().unwrap();
    assert_eq!(bytes, b"a,b\n7,2\n");
    app.saved(Ok(()));
    assert_eq!(app.status, "data.csv を保存しました");
    assert!(!app.document.as_ref().unwrap().is_dirty());

    let mut empty = RowlyApp::new();
    assert!(empty.save_bytes().is_none());
    assert_eq!(empty.status, "保存する CSV がありません");
}
