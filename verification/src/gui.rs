//! The table editor's state and decisions: column labels, the selected rectangle, how a
//! newly selected cell is kept inside the table, what a key press asks for, and what the
//! editor's commands do to its document, selection and status line.

use vstd::prelude::*;

use crate::data::table::{max_width, splice};
use crate::process::address::{
    a1_column, a1_failure, a1_row, a1_text, column_letters, max_int, min_int, push_column_letters,
    A1Failure, CellRef,
};
use crate::process::document::{
    busy_message, delete_columns_rows, document_message, empty_rows, insert_columns_rows,
    missing_cell_text, redone, undone,
};
use crate::text::trim;
use crate::process::{CsvDocument, DocumentError};
use crate::data::csv_io::csv_output;
use crate::text::{chars_of, string_of, string_of_range, trim_bounds};

verus! {

/// The letters heading a zero-based column (`0` is `A`, `26` is `AA`).
pub fn column_label(column: usize) -> (label: String)
    requires
        column < usize::MAX,
    ensures
        label@ == column_letters((column + 1) as nat),
{
    let mut letters: Vec<char> = Vec::new();
    push_column_letters(&mut letters, column as u128 + 1);
    assert(letters@ =~= column_letters((column + 1) as nat));
    string_of(letters.as_slice())
}

/// The rectangle spanned by two cells: first row, last row, first column, last column.
pub fn cell_range(first: CellRef, second: CellRef) -> (range: (usize, usize, usize, usize))
    ensures
        range.0 == min_int(first.row as int, second.row as int),
        range.1 == max_int(first.row as int, second.row as int),
        range.2 == min_int(first.column as int, second.column as int),
        range.3 == max_int(first.column as int, second.column as int),
{
    let top = if first.row() < second.row() {
        first.row()
    } else {
        second.row()
    };
    let bottom = if first.row() < second.row() {
        second.row()
    } else {
        first.row()
    };
    let left = if first.column() < second.column() {
        first.column()
    } else {
        second.column()
    };
    let right = if first.column() < second.column() {
        second.column()
    } else {
        first.column()
    };
    (top, bottom, left, right)
}

/// `value` moved into `0..count` (`0` when `count` is `0`).
pub open spec fn clamp_index(value: int, count: int) -> int {
    if count == 0 {
        0
    } else if value < count - 1 {
        value
    } else {
        count - 1
    }
}

/// Selects `reference`, moved inside a table of `bounds` (rows, columns): the selection
/// becomes it, the anchor too unless the selection is being extended, the reference box
/// shows its A1 text, and editing stops.
pub fn update_selection(
    selection: &mut CellRef,
    anchor: &mut CellRef,
    reference_input: &mut String,
    editing: &mut bool,
    reference: CellRef,
    extend: bool,
    bounds: (usize, usize),
)
    ensures
        final(selection).row as int == clamp_index(reference.row as int, bounds.0 as int),
        final(selection).column as int == clamp_index(reference.column as int, bounds.1 as int),
        *final(anchor) == if extend {
            *old(anchor)
        } else {
            *final(selection)
        },
        final(reference_input)@ == a1_text(final(selection).row as int, final(selection).column as int),
        !*final(editing),
{
    let last_row = if bounds.0 == 0 {
        0
    } else {
        bounds.0 - 1
    };
    let last_column = if bounds.1 == 0 {
        0
    } else {
        bounds.1 - 1
    };
    let row = if reference.row() < last_row {
        reference.row()
    } else {
        last_row
    };
    let column = if reference.column() < last_column {
        reference.column()
    } else {
        last_column
    };
    let target = CellRef::new(row, column);
    if !extend {
        *anchor = target;
    }
    *selection = target;
    *reference_input = target.to_string();
    *editing = false;
}

/// What a key press in the grid asks for.
#[derive(Debug, Clone, Copy, PartialEq, Eq, Structural)]
pub enum GridKeyAction {
    Undo,
    Redo,
    CancelEdit,
    /// Select the cell reached by the arrow key, extending the selection when shift is held.
    Move { row: usize, column: usize, extend: bool },
    BeginEdit,
    Nothing,
}

/// Keys pressed in the grid while no cell is being edited.
#[derive(Debug, Clone, Copy, PartialEq, Eq)]
pub struct GridKeys {
    pub undo: bool,
    pub redo: bool,
    pub cancel: bool,
    /// Column and row steps of an arrow key (`-1`, `0` or `1`).
    pub direction: Option<(i8, i8)>,
    pub edit: bool,
    pub shift: bool,
}

/// `value` moved by `step`, stopping at `0` and at `usize::MAX`
/// (`usize::saturating_add_signed`).
pub open spec fn step_index(value: int, step: int) -> int {
    if value + step < 0 {
        0
    } else if value + step > usize::MAX {
        usize::MAX as int
    } else {
        value + step
    }
}

fn step(value: usize, delta: i8) -> (moved: usize)
    ensures
        moved == step_index(value as int, delta as int),
{
    if delta < 0 {
        let down = (-(delta as i16)) as usize;
        if value < down {
            0
        } else {
            value - down
        }
    } else {
        let up = delta as usize;
        if value > usize::MAX - up {
            usize::MAX
        } else {
            value + up
        }
    }
}

/// The action for keys pressed in the grid: undo, then redo, then cancel, then a move
/// from `selection`, then starting an edit, in that order of precedence.
pub open spec fn key_action(keys: GridKeys, selection: CellRef) -> GridKeyAction {
    if keys.undo {
        GridKeyAction::Undo
    } else if keys.redo {
        GridKeyAction::Redo
    } else if keys.cancel {
        GridKeyAction::CancelEdit
    } else if let Some((dx, dy)) = keys.direction {
        GridKeyAction::Move {
            row: step_index(selection.row as int, dy as int) as usize,
            column: step_index(selection.column as int, dx as int) as usize,
            extend: keys.shift,
        }
    } else if keys.edit {
        GridKeyAction::BeginEdit
    } else {
        GridKeyAction::Nothing
    }
}

/// The action for keys pressed in the grid (see `key_action`).
pub fn grid_key_action(keys: GridKeys, selection: CellRef) -> (action: GridKeyAction)
    ensures
        action == key_action(keys, selection),
{
    if keys.undo {
        GridKeyAction::Undo
    } else if keys.redo {
        GridKeyAction::Redo
    } else if keys.cancel {
        GridKeyAction::CancelEdit
    } else {
        match keys.direction {
            Some((dx, dy)) => GridKeyAction::Move {
                row: step(selection.row(), dy),
                column: step(selection.column(), dx),
                extend: keys.shift,
            },
            None => if keys.edit {
                GridKeyAction::BeginEdit
            } else {
                GridKeyAction::Nothing
            },
        }
    }
}


/// What the editor's workspace shows.
#[derive(Debug, Clone, Copy, PartialEq, Eq, Structural)]
pub enum WorkspaceMode {
    TableEditor,
    TextEditor,
    Viewer,
}

/// The table editor's state: the open document, the selected cells, the cell being
/// edited and the status line.
pub struct RowlyApp {
    pub mode: WorkspaceMode,
    pub path_input: String,
    pub reference_input: String,
    pub document: Option<CsvDocument>,
    pub status: String,
    pub selection: CellRef,
    pub selection_anchor: CellRef,
    pub editing: bool,
    pub edit_value: String,
}

/// `reference` moved inside a table of `rows` rows and `columns` columns.
pub open spec fn clamped(reference: CellRef, rows: int, columns: int) -> CellRef {
    CellRef {
        row: clamp_index(reference.row as int, rows) as usize,
        column: clamp_index(reference.column as int, columns) as usize,
    }
}

/// The status line shown before a document is open.
pub open spec fn welcome_status() -> Seq<char> {
    "CSV ファイルを開いてください"@
}

/// `after_app` is `before_app` once its `undo` command ran.
pub open spec fn undo_done(before_app: RowlyApp, after_app: RowlyApp) -> bool {
    &&& after_app.wf()
    &&& !after_app.editing
    &&& after_app.mode == before_app.mode
    &&& after_app.path_input == before_app.path_input
    &&& after_app.edit_value == before_app.edit_value
    &&& match before_app.document {
        None => {
            &&& after_app.document is None
            &&& after_app.status == before_app.status
            &&& after_app.selection == before_app.selection
            &&& after_app.selection_anchor == before_app.selection_anchor
            &&& after_app.reference_input == before_app.reference_input
        },
        Some(before) => after_app.document matches Some(after) && if before.spec_transaction_active() {
            &&& after@ == before@
            &&& after_app.status@ == "invalid transaction operation: "@ + busy_message("undo"@)
            &&& after_app.selection == before_app.selection
            &&& after_app.selection_anchor == before_app.selection_anchor
            &&& after_app.reference_input == before_app.reference_input
        } else if !before.spec_can_undo() {
            &&& after@ == before@
            &&& after_app.status@ == "Nothing to undo"@
            &&& after_app.selection == before_app.selection
            &&& after_app.selection_anchor == before_app.selection_anchor
            &&& after_app.reference_input == before_app.reference_input
        } else {
            &&& undone(before, after)
            &&& after_app.status@ == "Undone"@
            &&& before_app.selects(after_app, before_app.selection, false)
        },
    }
}

/// `after_app` is `before_app` once its `redo` command ran.
pub open spec fn redo_done(before_app: RowlyApp, after_app: RowlyApp) -> bool {
    &&& after_app.wf()
    &&& !after_app.editing
    &&& after_app.mode == before_app.mode
    &&& after_app.path_input == before_app.path_input
    &&& after_app.edit_value == before_app.edit_value
    &&& match before_app.document {
        None => {
            &&& after_app.document is None
            &&& after_app.status == before_app.status
            &&& after_app.selection == before_app.selection
            &&& after_app.selection_anchor == before_app.selection_anchor
            &&& after_app.reference_input == before_app.reference_input
        },
        Some(before) => after_app.document matches Some(after) && if before.spec_transaction_active() {
            &&& after@ == before@
            &&& after_app.status@ == "invalid transaction operation: "@ + busy_message("redo"@)
            &&& after_app.selection == before_app.selection
            &&& after_app.selection_anchor == before_app.selection_anchor
            &&& after_app.reference_input == before_app.reference_input
        } else if !before.spec_can_redo() {
            &&& after@ == before@
            &&& after_app.status@ == "Nothing to redo"@
            &&& after_app.selection == before_app.selection
            &&& after_app.selection_anchor == before_app.selection_anchor
            &&& after_app.reference_input == before_app.reference_input
        } else {
            &&& redone(before, after)
            &&& after_app.status@ == "Redone"@
            &&& before_app.selects(after_app, before_app.selection, false)
        },
    }
}

impl RowlyApp {
    /// The document, if one is open, is consistent.
    pub open spec fn wf(&self) -> bool {
        self.document matches Some(document) ==> document.wf()
    }

    /// The rows and columns of the open document (none when there is none).
    pub open spec fn bounds(&self) -> (int, int) {
        match self.document {
            Some(document) => (document@.len() as int, max_width(document@) as int),
            None => (0, 0),
        }
    }

    /// `after` selects `reference` as `set_selection` does, from `self`.
    pub open spec fn selects(&self, after: RowlyApp, reference: CellRef, extend: bool) -> bool {
        let (rows, columns) = after.bounds();
        &&& after.selection == clamped(reference, rows, columns)
        &&& after.selection_anchor == if extend {
            self.selection_anchor
        } else {
            after.selection
        }
        &&& after.reference_input@ == a1_text(after.selection.row as int, after.selection.column as int)
        &&& !after.editing
    }

    /// No document yet, the first cell selected, and the welcome status.
    pub fn new() -> (app: Self)
        ensures
            app.wf(),
            app.mode == WorkspaceMode::TableEditor,
            app.path_input@.len() == 0,
            app.reference_input@ == "A1"@,
            (app.document is None),
            app.status@ == welcome_status(),
            app.selection == (CellRef { row: 0, column: 0 }),
            app.selection_anchor == app.selection,
            !app.editing,
            app.edit_value@.len() == 0,
    {
        RowlyApp {
            mode: WorkspaceMode::TableEditor,
            path_input: String::new(),
            reference_input: String::from_str("A1"),
            document: None,
            status: String::from_str("CSV ファイルを開いてください"),
            selection: CellRef::new(0, 0),
            selection_anchor: CellRef::new(0, 0),
            editing: false,
            edit_value: String::new(),
        }
    }

    fn table_bounds(&self) -> (bounds: (usize, usize))
        ensures
            bounds.0 as int == self.bounds().0,
            bounds.1 as int == self.bounds().1,
    {
        match &self.document {
            Some(document) => (document.row_count(), document.column_count()),
            None => (0, 0),
        }
    }

    /// Selects `reference`, kept inside the table; the anchor moves with it unless the
    /// selection is being extended, and editing stops.
    pub fn set_selection(&mut self, reference: CellRef, extend: bool)
        ensures
            old(self).selects(*final(self), reference, extend),
            final(self).document == old(self).document,
            final(self).status == old(self).status,
            final(self).mode == old(self).mode,
            final(self).path_input == old(self).path_input,
            final(self).edit_value == old(self).edit_value,
    {
        let bounds = self.table_bounds();
        update_selection(
            &mut self.selection,
            &mut self.selection_anchor,
            &mut self.reference_input,
            &mut self.editing,
            reference,
            extend,
            bounds,
        );
    }

    /// Starts editing the selected cell with `value` in the edit box.
    pub fn begin_edit(&mut self, value: &str)
        ensures
            final(self).edit_value@ == value@,
            final(self).editing,
            final(self).document == old(self).document,
            final(self).status == old(self).status,
            final(self).selection == old(self).selection,
            final(self).selection_anchor == old(self).selection_anchor,
            final(self).reference_input == old(self).reference_input,
            final(self).mode == old(self).mode,
            final(self).path_input == old(self).path_input,
    {
        self.edit_value = String::from_str(value);
        self.editing = true;
    }

    /// Moves the selection back inside the open document's table (after it shrank).
    pub fn clamp_selection(&mut self)
        ensures
            (old(self).document is None) ==> *final(self) == *old(self),
            (old(self).document is Some) ==> old(self).selects(*final(self), old(self).selection, false),
            final(self).document == old(self).document,
            final(self).status == old(self).status,
            final(self).mode == old(self).mode,
            final(self).path_input == old(self).path_input,
            final(self).edit_value == old(self).edit_value,
    {
        if self.document.is_none() {
            return;
        }
        let (rows, columns) = self.table_bounds();
        let last_row = if rows == 0 { 0 } else { rows - 1 };
        let last_column = if columns == 0 { 0 } else { columns - 1 };
        let row = if self.selection.row() < last_row { self.selection.row() } else { last_row };
        let column = if self.selection.column() < last_column { self.selection.column() } else { last_column };
        self.set_selection(CellRef::new(row, column), false);
    }

    /// Undoes the open document's latest edit. The status says what happened, the
    /// selection is kept inside the table, and editing stops.
    pub fn undo(&mut self)
        requires
            old(self).wf(),
        ensures
            undo_done(*old(self), *final(self)),
    {
        match self.document.take() {
            None => {},
            Some(mut document) => {
                let result = document.undo();
                self.document = Some(document);
                match result {
                    Ok(true) => {
                        self.status = String::from_str("Undone");
                        self.clamp_selection();
                    },
                    Ok(false) => {
                        self.status = String::from_str("Nothing to undo");
                    },
                    Err(error) => {
                        self.status = error.to_string();
                    },
                }
            },
        }
        self.editing = false;
    }

    /// Redoes the open document's latest undone edit. The status says what happened, the
    /// selection is kept inside the table, and editing stops.
    pub fn redo(&mut self)
        requires
            old(self).wf(),
        ensures
            redo_done(*old(self), *final(self)),
    {
        match self.document.take() {
            None => {},
            Some(mut document) => {
                let result = document.redo();
                self.document = Some(document);
                match result {
                    Ok(true) => {
                        self.status = String::from_str("Redone");
                        self.clamp_selection();
                    },
                    Ok(false) => {
                        self.status = String::from_str("Nothing to redo");
                    },
                    Err(error) => {
                        self.status = error.to_string();
                    },
                }
            },
        }
        self.editing = false;
    }

    /// Sets one cell of the open document (a cell that exists) and says so in the status;
    /// a missing cell leaves the table as it is and the status says why.
    pub fn set_cell(&mut self, row: usize, column: usize, value: &str)
        requires
            old(self).wf(),
        ensures
            final(self).wf(),
            final(self).mode == old(self).mode,
            final(self).path_input == old(self).path_input,
            final(self).edit_value == old(self).edit_value,
            final(self).selection == old(self).selection,
            final(self).selection_anchor == old(self).selection_anchor,
            final(self).reference_input == old(self).reference_input,
            final(self).editing == old(self).editing,
            match old(self).document {
                None => final(self).document is None && final(self).status == old(self).status,
                Some(before) => final(self).document matches Some(after) && if row < before@.len() && column
                    < before@[row as int].len() {
                    &&& after@ == before@.update(row as int, before@[row as int].update(column as int, value@))
                    &&& final(self).status@ == "Cell updated ("@ + a1_text(
                        old(self).selection.row as int,
                        old(self).selection.column as int,
                    ) + ")"@
                } else {
                    &&& after@ == before@
                    &&& final(self).status@ == "failed to edit CSV: "@ + missing_cell_text(row as int, column as int)
                },
            },
    {
        match self.document.take() {
            None => {},
            Some(mut document) => {
                let result = document.set_cell(row, column, value);
                self.document = Some(document);
                match result {
                    Ok(()) => {
                        let mut text = String::from_str("Cell updated (");
                        let reference = self.selection.to_string();
                        text.append(reference.as_str());
                        text.append(")");
                        self.status = text;
                    },
                    Err(error) => {
                        self.status = error.to_string();
                    },
                }
            },
        }
    }

    /// Selects the cell named in the reference box; a name that is not an A1 reference
    /// leaves the selection and the status says why.
    pub fn navigate_to_cell(&mut self)
        ensures
            final(self).document == old(self).document,
            final(self).mode == old(self).mode,
            final(self).path_input == old(self).path_input,
            final(self).edit_value == old(self).edit_value,
            match a1_failure(old(self).reference_input@) {
                None => {
                    &&& old(self).selects(
                        *final(self),
                        CellRef {
                            row: a1_row(old(self).reference_input@) as usize,
                            column: a1_column(old(self).reference_input@) as usize,
                        },
                        false,
                    )
                    &&& final(self).status@ == "Selected "@ + a1_text(
                        final(self).selection.row as int,
                        final(self).selection.column as int,
                    )
                },
                Some(failure) => {
                    &&& final(self).selection == old(self).selection
                    &&& final(self).selection_anchor == old(self).selection_anchor
                    &&& final(self).reference_input == old(self).reference_input
                    &&& final(self).editing == old(self).editing
                    &&& final(self).status@ == if failure == A1Failure::Invalid {
                        "invalid cell reference `"@ + trim(old(self).reference_input@) + "`"@
                    } else {
                        "cell reference is too large `"@ + trim(old(self).reference_input@) + "`"@
                    }
                },
            },
    {
        match CellRef::parse_a1(self.reference_input.as_str()) {
            Ok(reference) => {
                self.set_selection(reference, false);
                let mut text = String::from_str("Selected ");
                let name = self.selection.to_string();
                text.append(name.as_str());
                self.status = text;
            },
            Err(error) => {
                self.status = error.to_string();
            },
        }
    }

    /// Ends a structural edit that gave `result` (`None`: no document is open): the status
    /// says what happened, a successful edit keeps the selection inside the table, and
    /// editing stops.
    fn apply_structure_result(&mut self, result: Option<Result<(), DocumentError>>, success: &str)
        requires
            old(self).wf(),
        ensures
            final(self).wf(),
            !final(self).editing,
            final(self).document == old(self).document,
            final(self).mode == old(self).mode,
            final(self).path_input == old(self).path_input,
            final(self).edit_value == old(self).edit_value,
            match result {
                Some(Ok(())) => {
                    &&& final(self).status@ == success@
                    &&& (old(self).document is Some ==> old(self).selects(*final(self), old(self).selection, false))
                },
                _ => {
                    &&& final(self).selection == old(self).selection
                    &&& final(self).selection_anchor == old(self).selection_anchor
                    &&& final(self).reference_input == old(self).reference_input
                    &&& final(self).status@ == match result {
                        Some(Err(error)) => document_message(error),
                        _ => welcome_status(),
                    }
                },
            },
    {
        match result {
            Some(Ok(())) => {
                self.status = String::from_str(success);
                self.clamp_selection();
            },
            Some(Err(error)) => {
                self.status = error.to_string();
            },
            None => {
                self.status = String::from_str("CSV ファイルを開いてください");
            },
        }
        self.editing = false;
    }

    /// Inserts an empty row at the selected row of the open document; the status says what happened, the selection is kept
    /// inside the table, and editing stops.
    pub fn insert_row(&mut self)
        requires
            old(self).wf(),
        ensures
            final(self).wf(),
            !final(self).editing,
            final(self).mode == old(self).mode,
            final(self).path_input == old(self).path_input,
            final(self).edit_value == old(self).edit_value,
            match old(self).document {
                None => {
                    &&& final(self).document is None
                    &&& final(self).status@ == welcome_status()
                    &&& final(self).selection == old(self).selection
                    &&& final(self).selection_anchor == old(self).selection_anchor
                    &&& final(self).reference_input == old(self).reference_input
                },
                Some(before) => final(self).document matches Some(after) && if old(self).selection.row <= before@.len() {
                    &&& after@ == splice(
                        before@,
                        old(self).selection.row as int,
                        0,
                        empty_rows(1, if max_width(before@) > 1 { max_width(before@) } else { 1 }),
                    )
                    &&& final(self).status@ == "Inserted row"@
                    &&& old(self).selects(*final(self), old(self).selection, false)
                } else {
                    &&& after@ == before@
                    &&& final(self).selection == old(self).selection
                    &&& final(self).selection_anchor == old(self).selection_anchor
                    &&& final(self).reference_input == old(self).reference_input
                },
            },
    {
        let result = match self.document.take() {
            None => None,
            Some(mut document) => {
                let outcome = document.insert_rows(self.selection.row(), 1);
                self.document = Some(document);
                Some(outcome)
            },
        };
        self.apply_structure_result(result, "Inserted row");
    }

    /// Deletes the selected row of the open document; the status says what happened, the selection is kept
    /// inside the table, and editing stops.
    pub fn delete_row(&mut self)
        requires
            old(self).wf(),
        ensures
            final(self).wf(),
            !final(self).editing,
            final(self).mode == old(self).mode,
            final(self).path_input == old(self).path_input,
            final(self).edit_value == old(self).edit_value,
            match old(self).document {
                None => {
                    &&& final(self).document is None
                    &&& final(self).status@ == welcome_status()
                    &&& final(self).selection == old(self).selection
                    &&& final(self).selection_anchor == old(self).selection_anchor
                    &&& final(self).reference_input == old(self).reference_input
                },
                Some(before) => final(self).document matches Some(after) && if old(self).selection.row + 1 <= before@.len() {
                    &&& after@ == splice(before@, old(self).selection.row as int, 1, Seq::empty())
                    &&& final(self).status@ == "Deleted row"@
                    &&& old(self).selects(*final(self), old(self).selection, false)
                } else {
                    &&& after@ == before@
                    &&& final(self).selection == old(self).selection
                    &&& final(self).selection_anchor == old(self).selection_anchor
                    &&& final(self).reference_input == old(self).reference_input
                },
            },
    {
        let result = match self.document.take() {
            None => None,
            Some(mut document) => {
                let outcome = document.delete_rows(self.selection.row(), 1);
                self.document = Some(document);
                Some(outcome)
            },
        };
        self.apply_structure_result(result, "Deleted row");
    }

    /// Inserts an empty column at the selected column of the open document; the status says what happened, the selection is kept
    /// inside the table, and editing stops.
    pub fn insert_column(&mut self)
        requires
            old(self).wf(),
        ensures
            final(self).wf(),
            !final(self).editing,
            final(self).mode == old(self).mode,
            final(self).path_input == old(self).path_input,
            final(self).edit_value == old(self).edit_value,
            match old(self).document {
                None => {
                    &&& final(self).document is None
                    &&& final(self).status@ == welcome_status()
                    &&& final(self).selection == old(self).selection
                    &&& final(self).selection_anchor == old(self).selection_anchor
                    &&& final(self).reference_input == old(self).reference_input
                },
                Some(before) => final(self).document matches Some(after) && if old(self).selection.column <= max_width(before@) {
                    &&& after@ == insert_columns_rows(before@, old(self).selection.column as int, 1)
                    &&& final(self).status@ == "Inserted column"@
                    &&& old(self).selects(*final(self), old(self).selection, false)
                } else {
                    &&& after@ == before@
                    &&& final(self).selection == old(self).selection
                    &&& final(self).selection_anchor == old(self).selection_anchor
                    &&& final(self).reference_input == old(self).reference_input
                },
            },
    {
        let result = match self.document.take() {
            None => None,
            Some(mut document) => {
                let outcome = document.insert_columns(self.selection.column(), 1);
                self.document = Some(document);
                Some(outcome)
            },
        };
        self.apply_structure_result(result, "Inserted column");
    }

    /// Deletes the selected column of the open document; the status says what happened, the selection is kept
    /// inside the table, and editing stops.
    pub fn delete_column(&mut self)
        requires
            old(self).wf(),
        ensures
            final(self).wf(),
            !final(self).editing,
            final(self).mode == old(self).mode,
            final(self).path_input == old(self).path_input,
            final(self).edit_value == old(self).edit_value,
            match old(self).document {
                None => {
                    &&& final(self).document is None
                    &&& final(self).status@ == welcome_status()
                    &&& final(self).selection == old(self).selection
                    &&& final(self).selection_anchor == old(self).selection_anchor
                    &&& final(self).reference_input == old(self).reference_input
                },
                Some(before) => final(self).document matches Some(after) && if old(self).selection.column + 1 <= max_width(before@) {
                    &&& after@ == delete_columns_rows(
                        before@,
                        old(self).selection.column as int,
                        old(self).selection.column + 1,
                    )
                    &&& final(self).status@ == "Deleted column"@
                    &&& old(self).selects(*final(self), old(self).selection, false)
                } else {
                    &&& after@ == before@
                    &&& final(self).selection == old(self).selection
                    &&& final(self).selection_anchor == old(self).selection_anchor
                    &&& final(self).reference_input == old(self).reference_input
                },
            },
    {
        let result = match self.document.take() {
            None => None,
            Some(mut document) => {
                let outcome = document.delete_columns(self.selection.column(), 1);
                self.document = Some(document);
                Some(outcome)
            },
        };
        self.apply_structure_result(result, "Deleted column");
    }

    /// The path typed in the path box without the white space around it: the file to open.
    pub fn requested_path(&self) -> (path: String)
        ensures
            path@ == trim(self.path_input@),
    {
        let chars = chars_of(self.path_input.as_str());
        let (start, end) = trim_bounds(chars.as_slice(), 0, chars.len());
        assert(chars@.subrange(0, chars@.len() as int) =~= self.path_input@);
        string_of_range(chars.as_slice(), start, end)
    }

    /// Takes the outcome of opening the file at `path`: its document becomes the open one,
    /// with the first cell selected, or the status says why it could not be opened.
    pub fn opened(&mut self, path: String, outcome: Result<CsvDocument, DocumentError>)
        requires
            old(self).wf(),
            outcome matches Ok(document) ==> document.wf(),
        ensures
            final(self).wf(),
            final(self).mode == old(self).mode,
            final(self).edit_value == old(self).edit_value,
            match outcome {
                Ok(document) => {
                    &&& final(self).document == Some(document)
                    &&& final(self).status@ == path@ + " を開きました"@
                    &&& final(self).path_input@ == path@
                    &&& final(self).selection == (CellRef { row: 0, column: 0 })
                    &&& final(self).selection_anchor == final(self).selection
                    &&& final(self).reference_input@ == "A1"@
                    &&& !final(self).editing
                },
                Err(error) => {
                    &&& final(self).status@ == document_message(error)
                    &&& final(self).document == old(self).document
                    &&& final(self).path_input == old(self).path_input
                    &&& final(self).selection == old(self).selection
                    &&& final(self).selection_anchor == old(self).selection_anchor
                    &&& final(self).reference_input == old(self).reference_input
                    &&& final(self).editing == old(self).editing
                },
            },
    {
        match outcome {
            Ok(document) => {
                let mut text = path.clone();
                text.append(" を開きました");
                self.status = text;
                self.path_input = path;
                self.document = Some(document);
                self.selection = CellRef::new(0, 0);
                self.selection_anchor = self.selection;
                self.reference_input = String::from_str("A1");
                self.editing = false;
            },
            Err(error) => {
                self.status = error.to_string();
            },
        }
    }

    /// The bytes to write to the open document's file; `None`, with the status saying
    /// why, when there is no document or it cannot be saved now.
    pub fn save_bytes(&mut self) -> (bytes: Option<Vec<u8>>)
        requires
            old(self).wf(),
        ensures
            final(self).document == old(self).document,
            final(self).mode == old(self).mode,
            final(self).path_input == old(self).path_input,
            final(self).edit_value == old(self).edit_value,
            final(self).selection == old(self).selection,
            final(self).selection_anchor == old(self).selection_anchor,
            final(self).reference_input == old(self).reference_input,
            final(self).editing == old(self).editing,
            match old(self).document {
                None => bytes is None && final(self).status@ == "保存する CSV がありません"@,
                Some(document) => if document.spec_transaction_active() {
                    &&& bytes is None
                    &&& final(self).status@ == "invalid transaction operation: "@ + busy_message("save"@)
                } else {
                    match csv_output(document@) {
                        Some(written) => bytes matches Some(b) && b@ == written && final(self).status
                            == old(self).status,
                        None => bytes is None,
                    }
                },
            },
    {
        let result = match &self.document {
            None => {
                self.status = String::from_str("保存する CSV がありません");
                return None;
            },
            Some(document) => document.save_bytes(),
        };
        match result {
            Ok(bytes) => Some(bytes),
            Err(error) => {
                self.status = error.to_string();
                None
            },
        }
    }

    /// Takes the outcome of writing the open document's bytes to its file: the document is
    /// then saved, or the status says why it is not.
    pub fn saved(&mut self, outcome: Result<(), DocumentError>)
        requires
            old(self).wf(),
            old(self).document is Some,
        ensures
            final(self).wf(),
            final(self).mode == old(self).mode,
            final(self).path_input == old(self).path_input,
            final(self).edit_value == old(self).edit_value,
            final(self).selection == old(self).selection,
            final(self).selection_anchor == old(self).selection_anchor,
            final(self).reference_input == old(self).reference_input,
            final(self).editing == old(self).editing,
            final(self).document matches Some(after) && match outcome {
                Ok(()) => {
                    &&& after@ == old(self).document.unwrap()@
                    &&& after.spec_path() == old(self).document.unwrap().spec_path()
                    &&& (!old(self).document.unwrap().spec_transaction_active() ==> !after.spec_dirty())
                    &&& final(self).status@ == after.spec_path() + " を保存しました"@
                },
                Err(error) => {
                    &&& after == old(self).document.unwrap()
                    &&& final(self).status@ == document_message(error)
                },
            },
    {
        let mut document = match self.document.take() {
            Some(document) => document,
            None => {
                return;
            },
        };
        match outcome {
            Ok(()) => {
                document.mark_saved();
                let mut text = String::from_str(document.path());
                text.append(" を保存しました");
                self.status = text;
            },
            Err(error) => {
                self.status = error.to_string();
            },
        }
        self.document = Some(document);
    }

    /// Handles keys pressed in the grid (see `key_action`); nothing happens outside the
    /// table editor or while a cell is being edited.
    pub fn handle_grid_keys(&mut self, keys: GridKeys)
        requires
            old(self).wf(),
        ensures
            final(self).wf(),
            old(self).mode != WorkspaceMode::TableEditor || old(self).editing ==> *final(self) == *old(self),
            old(self).mode == WorkspaceMode::TableEditor && !old(self).editing ==> match key_action(
                keys,
                old(self).selection,
            ) {
                GridKeyAction::Undo => undo_done(*old(self), *final(self)),
                GridKeyAction::Redo => redo_done(*old(self), *final(self)),
                GridKeyAction::Move { row, column, extend } => {
                    &&& old(self).selects(*final(self), CellRef { row, column }, extend)
                    &&& final(self).document == old(self).document
                    &&& final(self).status == old(self).status
                    &&& final(self).mode == old(self).mode
                    &&& final(self).path_input == old(self).path_input
                    &&& final(self).edit_value == old(self).edit_value
                },
                GridKeyAction::BeginEdit => {
                    &&& final(self).document == old(self).document
                    &&& final(self).selection == old(self).selection
                    &&& final(self).selection_anchor == old(self).selection_anchor
                    &&& final(self).reference_input == old(self).reference_input
                    &&& final(self).mode == old(self).mode
                    &&& final(self).path_input == old(self).path_input
                    &&& match old(self).document {
                        Some(document) if old(self).selection.row < document@.len()
                            && old(self).selection.column < document@[old(self).selection.row as int].len() => {
                            &&& final(self).editing
                            &&& final(self).edit_value@ == document@[old(self).selection.row as int][old(
                                self,
                            ).selection.column as int]
                            &&& final(self).status == old(self).status
                        },
                        _ => {
                            &&& final(self).editing == old(self).editing
                            &&& final(self).edit_value == old(self).edit_value
                            &&& final(self).status@ == a1_text(
                                old(self).selection.row as int,
                                old(self).selection.column as int,
                            ) + " is outside this CSV row"@
                        },
                    }
                },
                _ => *final(self) == *old(self),
            },
    {
        if self.mode != WorkspaceMode::TableEditor || self.editing {
            return;
        }
        match grid_key_action(keys, self.selection) {
            GridKeyAction::Undo => self.undo(),
            GridKeyAction::Redo => self.redo(),
            GridKeyAction::CancelEdit => {
                self.editing = false;
            },
            GridKeyAction::Move { row, column, extend } => self.set_selection(CellRef::new(row, column), extend),
            GridKeyAction::BeginEdit => {
                let value = match &self.document {
                    Some(document) => match document.cell(self.selection.row(), self.selection.column()) {
                        Some(text) => Some(String::from_str(text)),
                        None => None,
                    },
                    None => None,
                };
                match value {
                    Some(text) => self.begin_edit(text.as_str()),
                    None => {
                        let mut message = self.selection.to_string();
                        message.append(" is outside this CSV row");
                        self.status = message;
                    },
                }
            },
            GridKeyAction::Nothing => {},
        }
    }
}

} // verus!
