use vstd::prelude::*;

use crate::data::table::{max_width, splice};
use crate::data::csv_io::{csv_output, csv_records, decoded_text, read_csv, write_csv_utf8, CsvIoError};
use crate::data::encoding::DecodeError;
use crate::data::{SourceEncoding, Table, TableError};
use crate::process::address::{a1_result, a1_text, range_result, reference_message, CellRange, CellRef, ReferenceError};
use crate::process::column::{column_message, header_columns, ColumnError, ColumnType};
use crate::json::JsonValue;
use crate::process::metadata::{
    declared_type, last_declared, metadata_json_shape, metadata_load, metadata_message,
    sidecar_path, strictly_ordered, ColumnMetadata, MetadataError,
};
use crate::process::history::{
    apply_batch_redo, apply_batch_undo, apply_cells, apply_column_segments, apply_columns,
    apply_operation, apply_rows, column_expected, column_matches, column_replacement, history_dirty, non_empty_operations, operation_is_empty, points_chained, same_model, CellChange, ColumnChange, CommandDirection, EditHistory,
    EditOperation, RowEdit, Rows,
};
use crate::process::undo::{
    change_for_row, column_edit, inverse_pair, lemma_apply_cells_to, lemma_batch_inverse,
    lemma_columns_inverse, lemma_rows_inverse, mix_cells, redo_chain, transaction_chain, undo_chain,
};

verus! {

#[derive(Debug)]
pub enum DocumentError {
    Open { path: String, message: String },
    Reference(ReferenceError),
    Edit(String),
    Save { path: String, message: String },
    Transaction(String),
    Metadata(String),
    Column(ColumnError),
}

/// The message of a document error.
pub open spec fn document_message(error: DocumentError) -> Seq<char> {
    match error {
        DocumentError::Open { path, message } => "failed to open CSV `"@ + path@ + "`: "@ + message@,
        DocumentError::Reference(inner) => reference_message(inner),
        DocumentError::Edit(message) => "failed to edit CSV: "@ + message@,
        DocumentError::Save { path, message } => "failed to save CSV `"@ + path@ + "`: "@ + message@,
        DocumentError::Transaction(message) => "invalid transaction operation: "@ + message@,
        DocumentError::Metadata(message) => "Rowly metadata operation failed: "@ + message@,
        DocumentError::Column(inner) => column_message(inner),
    }
}

impl DocumentError {
    /// The error's message (see `document_message`).
    pub fn to_string(&self) -> (text: String)
        ensures
            text@ == document_message(*self),
    {
        match self {
            DocumentError::Open { path, message } => {
                let mut text = String::from_str("failed to open CSV `");
                text.append(path.as_str());
                text.append("`: ");
                text.append(message.as_str());
                text
            },
            DocumentError::Reference(inner) => inner.to_string(),
            DocumentError::Edit(message) => {
                let mut text = String::from_str("failed to edit CSV: ");
                text.append(message.as_str());
                text
            },
            DocumentError::Save { path, message } => {
                let mut text = String::from_str("failed to save CSV `");
                text.append(path.as_str());
                text.append("`: ");
                text.append(message.as_str());
                text
            },
            DocumentError::Transaction(message) => {
                let mut text = String::from_str("invalid transaction operation: ");
                text.append(message.as_str());
                text
            },
            DocumentError::Metadata(message) => {
                let mut text = String::from_str("Rowly metadata operation failed: ");
                text.append(message.as_str());
                text
            },
            DocumentError::Column(inner) => inner.to_string(),
        }
    }
}

/// `(row, column)` lies in the rectangle of `range`.
pub open spec fn in_range(range: CellRange, row: int, column: int) -> bool {
    &&& range.start().row <= row <= range.end().row
    &&& range.start().column <= column <= range.end().column
}

/// Every cell of the range exists in the table.
pub open spec fn range_exists(rows: Rows, range: CellRange) -> bool {
    forall|row: int, column: int|
        #![trigger in_range(range, row, column)]
        in_range(range, row, column) ==> row < rows.len() && column < rows[row].len()
}

/// The table with every cell of the range set to `value`.
pub open spec fn fill_range(rows: Rows, range: CellRange, value: Seq<char>) -> Rows {
    Seq::new(
        rows.len(),
        |row: int|
            Seq::new(
                rows[row].len(),
                |column: int|
                    if in_range(range, row, column) {
                        value
                    } else {
                        rows[row][column]
                    },
            ),
    )
}

/// Some change among the first `count` is at `(row, column)`.
pub open spec fn changed_at(changes: Seq<CellChange>, count: int, row: int, column: int) -> bool {
    exists|k: int|
        0 <= k < count && #[trigger] changes[k].reference.row == row && changes[k].reference.column
            == column
}

/// A CSV file opened for editing: the table, its edit history and its column metadata.
pub struct CsvDocument {
    path: String,
    source_encoding: SourceEncoding,
    table: Table,
    history: EditHistory,
    metadata: ColumnMetadata,
    metadata_error: Option<String>,
}

impl View for CsvDocument {
    type V = Rows;

    closed spec fn view(&self) -> Rows {
        self.table@
    }
}

/// Text equality of two string slices.
pub fn str_equal(a: &str, b: &str) -> (equal: bool)
    ensures
        equal == (a@ == b@),
{
    let left = a.to_owned();
    let right = b.to_owned();
    left == right
}

/// The recorded history agrees with the table: each undo, redo and transaction step
/// leads between the tables recorded around it, and the last committed table is the
/// current one unless a transaction is open.
pub open spec fn history_consistent(history: EditHistory, table: Rows) -> bool {
    &&& points_chained(history)
    &&& undo_chain(history.undo_states@, history.undo@, history.base@)
    &&& redo_chain(history.redo_states@, history.redo@, history.base@)
    &&& match history.transaction {
        None => history.base@ == table && history.transaction_states@.len() == 0,
        Some(operations) => {
            &&& transaction_chain(history.transaction_states@, operations@, table)
            &&& operations@.len() == 0 ==> history.base@ == table
            &&& operations@.len() > 0 ==> history.transaction_states@[0] == history.base@
            &&& forall|k: int| 0 <= k < operations@.len() ==> !operation_is_empty(#[trigger] operations@[k])
        },
    }
}

impl CsvDocument {
    /// The document's internal consistency: its history agrees with its table.
    pub closed spec fn wf(&self) -> bool {
        &&& history_consistent(self.history, self@)
        &&& self.metadata.wf()
    }

    /// The tables that the undo steps give back, oldest first; `undo` gives back the last.
    pub closed spec fn spec_undo_tables(&self) -> Seq<Rows> {
        self.history.undo_states@
    }

    /// The tables that the redo steps give back, the one `redo` gives back last.
    pub closed spec fn spec_redo_tables(&self) -> Seq<Rows> {
        self.history.redo_states@
    }

    /// The table that `undo` gives back.
    pub closed spec fn spec_undo_target(&self) -> Rows {
        self.history.undo_states@.last()
    }

    /// The table that `redo` gives back.
    pub closed spec fn spec_redo_target(&self) -> Rows {
        self.history.redo_states@.last()
    }

    /// The table as it was when the open transaction began (the current table when none
    /// is open).
    pub closed spec fn spec_transaction_base(&self) -> Rows {
        self.history.base@
    }

    pub closed spec fn spec_path(&self) -> Seq<char> {
        self.path@
    }

    pub closed spec fn spec_encoding(&self) -> SourceEncoding {
        self.source_encoding
    }

    pub closed spec fn spec_dirty(&self) -> bool {
        history_dirty(self.history)
    }

    /// The point of its edit history the document stands at; saving records it.
    pub closed spec fn spec_position(&self) -> int {
        self.history.current_state_id as int
    }

    /// The point of its edit history the document was last saved at.
    pub closed spec fn spec_saved_position(&self) -> int {
        self.history.saved_state_id as int
    }

    /// Whether a new edit can still be given a point of its own; the points run out
    /// after `u64::MAX` edits, and later edits share the last one.
    pub closed spec fn spec_points_left(&self) -> bool {
        self.history.next_state_id < u64::MAX
    }

    /// The point `undo` goes back to.
    pub closed spec fn spec_undo_position(&self) -> int {
        self.history.undo@.last().before_state_id as int
    }

    /// The point `redo` goes forward to.
    pub closed spec fn spec_redo_position(&self) -> int {
        self.history.redo@.last().after_state_id as int
    }

    pub closed spec fn spec_can_undo(&self) -> bool {
        self.history.undo@.len() > 0
    }

    pub closed spec fn spec_can_redo(&self) -> bool {
        self.history.redo@.len() > 0
    }

    pub closed spec fn spec_transaction_active(&self) -> bool {
        self.history.transaction is Some
    }

    /// The open transaction holds an edit that changed the table when it was made.
    pub closed spec fn spec_transaction_changed(&self) -> bool {
        crate::process::history::transaction_has_changes(self.history)
    }

    /// The column type declarations, in header order.
    pub closed spec fn spec_declarations(&self) -> Seq<(Seq<char>, ColumnType)> {
        self.metadata@
    }

    /// Why the sidecar's declarations could not be used, if they could not.
    pub closed spec fn spec_metadata_error(&self) -> Option<Seq<char>> {
        match self.metadata_error {
            Some(message) => Some(message@),
            None => None,
        }
    }

    /// A new document holding `rows`, considered saved at `path` in UTF-8.
    pub fn create(path: String, rows: Vec<Vec<String>>) -> (document: Self)
        ensures
            document.wf(),
            document@ == rows.deep_view(),
            document.spec_path() == path@,
            document.spec_encoding() == SourceEncoding::Utf8,
            !document.spec_dirty(),
            !document.spec_can_undo(),
            !document.spec_can_redo(),
            !document.spec_transaction_active(),
    {
        let mut history = EditHistory::new();
        history.mark_saved();
        let table = Table::new(rows);
        history.base = Ghost(table@);
        CsvDocument {
            path,
            source_encoding: SourceEncoding::Utf8,
            table,
            history,
            metadata: ColumnMetadata::new(),
            metadata_error: None,
        }
    }

    /// A document over a table read from `path` in `encoding`, with no edits yet.
    pub fn from_table(path: String, encoding: SourceEncoding, rows: Vec<Vec<String>>) -> (document:
        Self)
        ensures
            document.wf(),
            document@ == rows.deep_view(),
            document.spec_path() == path@,
            document.spec_encoding() == encoding,
            !document.spec_dirty(),
            !document.spec_can_undo(),
            !document.spec_can_redo(),
            !document.spec_transaction_active(),
    {
        let mut history = EditHistory::new();
        let table = Table::new(rows);
        history.base = Ghost(table@);
        CsvDocument {
            path,
            source_encoding: encoding,
            table,
            history,
            metadata: ColumnMetadata::new(),
            metadata_error: None,
        }
    }

    pub fn path(&self) -> (path: &str)
        ensures
            path@ == self.spec_path(),
    {
        self.path.as_str()
    }

    pub fn source_encoding(&self) -> (encoding: SourceEncoding)
        ensures
            encoding == self.spec_encoding(),
    {
        self.source_encoding
    }

    pub fn is_dirty(&self) -> (dirty: bool)
        ensures
            dirty == self.spec_dirty(),
    {
        self.history.is_dirty()
    }

    pub fn can_undo(&self) -> (can: bool)
        ensures
            can == self.spec_can_undo(),
    {
        self.history.can_undo()
    }

    pub fn can_redo(&self) -> (can: bool)
        ensures
            can == self.spec_can_redo(),
    {
        self.history.can_redo()
    }

    pub fn transaction_active(&self) -> (active: bool)
        ensures
            active == self.spec_transaction_active(),
    {
        self.history.transaction_active()
    }

    pub fn row_count(&self) -> (count: usize)
        ensures
            count == self@.len(),
    {
        self.table.row_count()
    }

    pub fn column_count(&self) -> (count: usize)
        ensures
            count == max_width(self@),
    {
        self.table.column_count()
    }

    pub fn rows(&self) -> (rows: &Vec<Vec<String>>)
        ensures
            rows.deep_view() == self@,
    {
        self.table.rows()
    }

    pub fn cell(&self, row: usize, column: usize) -> (value: Option<&str>)
        ensures
            match value {
                Some(text) => row < self@.len() && column < self@[row as int].len()
                    && text@ == self@[row as int][column as int],
                None => !(row < self@.len() && column < self@[row as int].len()),
            },
    {
        self.table.cell(row, column)
    }

    pub fn cell_ref(&self, reference: CellRef) -> (value: Option<&str>)
        ensures
            match value {
                Some(text) => reference.row < self@.len() && reference.column
                    < self@[reference.row as int].len() && text@
                    == self@[reference.row as int][reference.column as int],
                None => !(reference.row < self@.len() && reference.column
                    < self@[reference.row as int].len()),
            },
    {
        self.table.cell(reference.row, reference.column)
    }

    /// The cell named by an A1 reference; `Ok(None)` when it lies outside the table.
    pub fn cell_a1(&self, reference: &str) -> (value: Result<Option<&str>, DocumentError>)
        ensures
            match value {
                Ok(found) => exists|cell: CellRef|
                    a1_result(reference@, Ok(cell)) && match found {
                        Some(text) => cell.row < self@.len() && cell.column
                            < self@[cell.row as int].len() && text@
                            == self@[cell.row as int][cell.column as int],
                        None => !(cell.row < self@.len() && cell.column
                            < self@[cell.row as int].len()),
                    },
                Err(DocumentError::Reference(error)) => a1_result(reference@, Err(error)),
                Err(_) => false,
            },
    {
        match CellRef::parse_a1(reference) {
            Ok(cell) => Ok(self.cell_ref(cell)),
            Err(error) => Err(DocumentError::Reference(error)),
        }
    }
}

/// `(r1, c1)` comes before `(r2, c2)` in row-major order.
pub open spec fn before_in_order(r1: int, c1: int, r2: int, c2: int) -> bool {
    r1 < r2 || (r1 == r2 && c1 < c2)
}

/// In reading order, `(row, column)` is the first cell of the range that the table lacks.
pub open spec fn first_missing(rows: Rows, range: CellRange, row: int, column: int) -> bool {
    &&& in_range(range, row, column)
    &&& !(row < rows.len() && column < rows[row].len())
    &&& forall|r: int, c: int|
        #![trigger in_range(range, r, c)]
        in_range(range, r, c) && before_in_order(r, c, row, column) ==> r < rows.len() && c
            < rows[r].len()
}

/// What an edit that reaches the missing cell `(row, column)` fails with.
pub open spec fn missing_cell_text(row: int, column: int) -> Seq<char> {
    "cell `"@ + a1_text(row, column) + "` is outside the existing CSV table"@
}

/// The message for a range edit that reaches a missing cell.
fn missing_cell_message(reference: CellRef) -> (message: String)
    ensures
        message@ == missing_cell_text(reference.row as int, reference.column as int),
{
    let mut message = String::from_str("cell `");
    let text = reference.to_string();
    message.append(text.as_str());
    message.append("` is outside the existing CSV table");
    message
}

impl CsvDocument {
    /// Records an edit that led from `before` to the current table: in the open
    /// transaction, or as a new undo step that clears the redo steps.
    #[verifier::rlimit(40)]
    fn record_edit(&mut self, operation: EditOperation, Ghost(before): Ghost<Rows>)
        requires
            history_consistent(old(self).history, before),
            old(self).metadata.wf(),
            operation_is_empty(operation) ==> old(self)@ == before,
            !operation_is_empty(operation) ==> inverse_pair(before, operation, old(self)@),
        ensures
            final(self).wf(),
            final(self)@ == old(self)@,
            final(self).path == old(self).path,
            final(self).source_encoding == old(self).source_encoding,
            final(self).metadata_error == old(self).metadata_error,
            final(self).metadata == old(self).metadata,
            final(self).spec_transaction_active() == old(self).spec_transaction_active(),
            operation_is_empty(operation) ==> final(self).history == old(self).history,
            !operation_is_empty(operation) && !old(self).spec_transaction_active() ==> {
                &&& final(self).spec_can_undo()
                &&& final(self).spec_undo_target() == before
                &&& final(self).spec_undo_tables() == old(self).spec_undo_tables().push(before)
                &&& final(self).spec_redo_tables().len() == 0
                &&& !final(self).spec_can_redo()
                &&& final(self).spec_undo_position() == old(self).spec_position()
                &&& final(self).spec_saved_position() == old(self).spec_saved_position()
                &&& old(self).spec_points_left() ==> final(self).spec_dirty()
            },
            !operation_is_empty(operation) && old(self).spec_transaction_active() ==> {
                &&& same_steps(*old(self), *final(self))
                &&& final(self).spec_transaction_base() == old(self).spec_transaction_base()
                &&& final(self).spec_transaction_changed()
                &&& final(self).spec_dirty()
            },
    {
        let ghost op = operation;
        let empty = operation.is_empty();
        let in_transaction = self.history.transaction_active();
        let ghost undo_states = self.history.undo_states@;
        let ghost transaction_states = self.history.transaction_states@;
        let ghost old_history = self.history;
        self.history.record(operation);
        if !empty {
            if in_transaction {
                self.history.transaction_states = Ghost(transaction_states.push(before));
                proof {
                    let ops = self.history.transaction.unwrap()@;
                    let states = self.history.transaction_states@;
                    let old_ops = old_history.transaction.unwrap()@;
                    assert forall|k: int| 0 <= k < ops.len() implies inverse_pair(
                        #[trigger] states[k],
                        ops[k],
                        if k + 1 < ops.len() {
                            states[k + 1]
                        } else {
                            self@
                        },
                    ) by {
                        if k < old_ops.len() {
                            assert(ops[k] == old_ops[k]);
                            assert(states[k] == transaction_states[k]);
                        }
                    }
                    assert forall|k: int| 0 <= k < ops.len() implies !operation_is_empty(#[trigger] ops[k]) by {
                        if k < old_ops.len() {
                            assert(ops[k] == old_ops[k]);
                        }
                    }
                    assert(!operation_is_empty(ops[ops.len() - 1]));
                }
            } else {
                self.history.undo_states = Ghost(undo_states.push(before));
                self.history.redo_states = Ghost(Seq::empty());
                self.history.base = Ghost(self@);
                proof {
                    let commands = self.history.undo@;
                    let states = self.history.undo_states@;
                    assert forall|i: int| 0 <= i < commands.len() implies inverse_pair(
                        #[trigger] states[i],
                        commands[i].operation,
                        if i + 1 < commands.len() {
                            states[i + 1]
                        } else {
                            self.history.base@
                        },
                    ) by {
                        if i < old_history.undo@.len() {
                            assert(commands[i] == old_history.undo@[i]);
                            assert(states[i] == undo_states[i]);
                        }
                    }
                }
            }
        }
    }
}

impl CsvDocument {
    /// Sets every cell of the range to `value` as one undoable edit. Every cell must
    /// exist; otherwise nothing changes.
    #[verifier::loop_isolation(false)]
    #[verifier::rlimit(40)]
    pub fn set_range_value(&mut self, range: CellRange, value: &str) -> (result: Result<
        (),
        DocumentError,
    >)
        requires
            old(self).wf(),
        ensures
            final(self).spec_declarations() == old(self).spec_declarations(),
            final(self).wf(),
            result is Ok <==> range_exists(old(self)@, range),
            result is Ok ==> final(self)@ == fill_range(old(self)@, range, value@),
            result is Err ==> final(self)@ == old(self)@ && (result matches Err(DocumentError::Edit(message))
                && exists|row: int, column: int|
                #![trigger first_missing(old(self)@, range, row, column)]
                first_missing(old(self)@, range, row, column) && message@ == missing_cell_text(
                    row,
                    column,
                )),
            final(self).spec_path() == old(self).spec_path(),
            final(self).spec_encoding() == old(self).spec_encoding(),
            final(self).spec_transaction_active() == old(self).spec_transaction_active(),
            result is Ok && !old(self).spec_transaction_active() && final(self)@ != old(self)@ ==> edited(
                *old(self),
                *final(self),
            ),
            result is Ok && old(self).spec_transaction_active() && final(self)@ != old(self)@
                ==> transaction_edited(*old(self), *final(self)),
            result is Ok && final(self)@ == old(self)@ ==> same_history(*old(self), *final(self)),
            result is Err ==> same_history(*old(self), *final(self)),
    {
        let ghost rows = self@;
        let mut changes: Vec<CellChange> = Vec::new();
        proof {
            use_type_invariant(&range);
        }
        let end_row = range.end().row as u128;
        let end_column = range.end().column as u128;
        let mut row: u128 = range.start().row as u128;
        while row <= end_row
            invariant
                range.start().row <= row <= end_row + 1,
                end_row == range.end().row,
                end_column == range.end().column,
                self@ == rows,
                forall|r: int, c: int|
                    #![trigger in_range(range, r, c)]
                    in_range(range, r, c) && r < row ==> r < rows.len() && c < rows[r].len(),
                forall|k: int|
                    0 <= k < changes@.len() ==> {
                        let ch = #[trigger] changes@[k];
                        &&& in_range(range, ch.reference.row as int, ch.reference.column as int)
                        &&& ch.reference.row < row
                        &&& ch.reference.row < rows.len()
                        &&& ch.reference.column < rows[ch.reference.row as int].len()
                        &&& ch.after@ == value@
                        &&& ch.before@ != value@
                        &&& ch.before@ == rows[ch.reference.row as int][ch.reference.column as int]
                    },
                forall|r: int, c: int|
                    #![trigger in_range(range, r, c)]
                    in_range(range, r, c) && r < row && rows[r][c] != value@ ==> changed_at(
                        changes@,
                        changes@.len() as int,
                        r,
                        c,
                    ),
            decreases end_row + 1 - row,
        {
            let mut column: u128 = range.start().column as u128;
            while column <= end_column
                invariant
                    range.start().row <= row <= end_row,
                    range.start().column <= column <= end_column + 1,
                    end_row == range.end().row,
                    end_column == range.end().column,
                    self@ == rows,
                    forall|r: int, c: int|
                        #![trigger in_range(range, r, c)]
                        in_range(range, r, c) && before_in_order(r, c, row as int, column as int)
                            ==> r < rows.len() && c < rows[r].len(),
                    forall|k: int|
                        0 <= k < changes@.len() ==> {
                            let ch = #[trigger] changes@[k];
                            &&& in_range(range, ch.reference.row as int, ch.reference.column as int)
                            &&& ch.reference.row <= row
                            &&& ch.reference.row < rows.len()
                            &&& ch.reference.column < rows[ch.reference.row as int].len()
                            &&& ch.after@ == value@
                            &&& ch.before@ != value@
                            &&& ch.before@ == rows[ch.reference.row as int][ch.reference.column as int]
                        },
                    forall|r: int, c: int|
                        #![trigger in_range(range, r, c)]
                        in_range(range, r, c) && before_in_order(r, c, row as int, column as int)
                            && rows[r][c] != value@ ==> changed_at(
                            changes@,
                            changes@.len() as int,
                            r,
                            c,
                        ),
                decreases end_column + 1 - column,
            {
                let reference = CellRef::new(row as usize, column as usize);
                match self.table.cell(row as usize, column as usize) {
                    None => {
                        proof {
                            assert(in_range(range, row as int, column as int));
                            assert(first_missing(rows, range, row as int, column as int));
                        }
                        return Err(DocumentError::Edit(missing_cell_message(reference)));
                    },
                    Some(before) => {
                        if !str_equal(before, value) {
                            let ghost old_changes = changes@;
                            changes.push(
                                CellChange {
                                    reference,
                                    before: before.to_owned(),
                                    after: value.to_owned(),
                                },
                            );
                            proof {
                                assert forall|r: int, c: int|
                                    #![trigger in_range(range, r, c)]
                                    in_range(range, r, c) && before_in_order(
                                        r,
                                        c,
                                        row as int,
                                        column + 1,
                                    ) && rows[r][c] != value@ implies changed_at(
                                    changes@,
                                    changes@.len() as int,
                                    r,
                                    c,
                                ) by {
                                    if r == row && c == column {
                                        assert(changes@[changes@.len() - 1].reference == reference);
                                    } else {
                                        assert(changed_at(old_changes, old_changes.len() as int, r, c));
                                        let k = choose|k: int|
                                            0 <= k < old_changes.len() && #[trigger] old_changes[k].reference.row
                                                == r && old_changes[k].reference.column == c;
                                        assert(changes@[k] == old_changes[k]);
                                    }
                                }
                            }
                        }
                    },
                }
                column += 1;
            }
            row += 1;
        }
        let ghost collected = changes@;
        let mut index: usize = 0;
        while index < changes.len()
            invariant
                index <= changes@.len(),
                changes@ == collected,
                self.path == old(self).path,
                self.history == old(self).history,
                self.metadata == old(self).metadata,
                self.source_encoding == old(self).source_encoding,
                self@.len() == rows.len(),
                forall|r: int| 0 <= r < rows.len() ==> #[trigger] self@[r].len() == rows[r].len(),
                forall|k: int|
                    0 <= k < collected.len() ==> {
                        let ch = #[trigger] collected[k];
                        &&& ch.reference.row < rows.len()
                        &&& ch.reference.column < rows[ch.reference.row as int].len()
                        &&& ch.after@ == value@
                        &&& ch.before@ != value@
                        &&& ch.before@ == rows[ch.reference.row as int][ch.reference.column as int]
                    },
                forall|r: int, c: int|
                    0 <= r < rows.len() && 0 <= c < rows[r].len() ==> #[trigger] self@[r][c] == if changed_at(
                        collected,
                        index as int,
                        r,
                        c,
                    ) {
                        value@
                    } else {
                        rows[r][c]
                    },
            decreases changes@.len() - index,
        {
            let change = &changes[index];
            let ghost before_table = self@;
            let result = self.table.set_cell(
                change.reference.row,
                change.reference.column,
                change.after.clone(),
            );
            proof {
                assert(result is Ok);
                assert forall|r: int, c: int|
                    0 <= r < rows.len() && 0 <= c < rows[r].len() implies #[trigger] self@[r][c]
                    == if changed_at(collected, index + 1, r, c) {
                        value@
                    } else {
                        rows[r][c]
                    } by {
                    if r == change.reference.row && c == change.reference.column {
                        assert(collected[index as int].reference.row == r);
                        assert(changed_at(collected, index + 1, r, c));
                    } else {
                        assert(self@[r][c] == before_table[r][c]);
                        if changed_at(collected, index + 1, r, c) {
                            let k = choose|k: int|
                                0 <= k < index + 1 && #[trigger] collected[k].reference.row == r
                                    && collected[k].reference.column == c;
                            assert(k != index);
                            assert(changed_at(collected, index as int, r, c));
                        }
                    }
                }
            }
            index += 1;
        }
        proof {
            assert forall|r: int, c: int|
                #![trigger in_range(range, r, c)]
                in_range(range, r, c) implies r < rows.len() && c < rows[r].len() by {
                assert(before_in_order(r, c, range.end().row + 1, 0));
            }
            assert(self@ =~= fill_range(rows, range, value@)) by {
                assert forall|r: int| 0 <= r < rows.len() implies self@[r] =~= fill_range(
                    rows,
                    range,
                    value@,
                )[r] by {
                    assert forall|c: int| 0 <= c < rows[r].len() implies self@[r][c]
                        == fill_range(rows, range, value@)[r][c] by {
                        if changed_at(collected, collected.len() as int, r, c) {
                            let k = choose|k: int|
                                0 <= k < collected.len() && #[trigger] collected[k].reference.row
                                    == r && collected[k].reference.column == c;
                            assert(in_range(range, r, c));
                        } else if in_range(range, r, c) {
                            assert(!(rows[r][c] != value@));
                        }
                    }
                }
            }
        }
        proof {
            let new_rows = self@;
            if collected.len() == 0 {
                assert(new_rows =~~= rows) by {
                    assert forall|r: int| 0 <= r < rows.len() implies #[trigger] new_rows[r] =~= rows[r] by {
                        assert forall|c: int| 0 <= c < rows[r].len() implies new_rows[r][c] == rows[r][c] by {
                            if in_range(range, r, c) && rows[r][c] != value@ {
                                assert(changed_at(collected, collected.len() as int, r, c));
                                let k = choose|k: int|
                                    0 <= k < collected.len() && #[trigger] collected[k].reference.row == r
                                        && collected[k].reference.column == c;
                            }
                        }
                    }
                }
            } else {
                assert forall|k: int| 0 <= k < collected.len() implies {
                    let ch = #[trigger] collected[k];
                    &&& ch.reference.row < new_rows.len()
                    &&& ch.reference.column < new_rows[ch.reference.row as int].len()
                    &&& crate::process::undo::change_text(ch, CommandDirection::Undo) == rows[ch.reference.row as int][ch.reference.column as int]
                    &&& crate::process::undo::change_text(ch, CommandDirection::Redo) == new_rows[ch.reference.row as int][ch.reference.column as int]
                } by {
                    let ch = collected[k];
                    assert(in_range(range, ch.reference.row as int, ch.reference.column as int));
                }
                lemma_apply_cells_to(new_rows, rows, collected, CommandDirection::Undo);
                lemma_apply_cells_to(rows, new_rows, collected, CommandDirection::Redo);
                assert(mix_cells(new_rows, rows, collected) =~~= rows) by {
                    assert forall|r: int| 0 <= r < rows.len() implies #[trigger] mix_cells(new_rows, rows, collected)[r] =~= rows[r] by {
                        assert forall|c: int| 0 <= c < rows[r].len() implies mix_cells(new_rows, rows, collected)[r][c] == rows[r][c] by {
                            if !changed_at(collected, collected.len() as int, r, c) && in_range(range, r, c) && rows[r][c] != value@ {
                                assert(false);
                            }
                        }
                    }
                }
                assert(mix_cells(rows, new_rows, collected) =~~= new_rows) by {
                    assert forall|r: int| 0 <= r < rows.len() implies #[trigger] mix_cells(rows, new_rows, collected)[r] =~= new_rows[r] by {
                        assert forall|c: int| 0 <= c < rows[r].len() implies mix_cells(rows, new_rows, collected)[r][c] == new_rows[r][c] by {
                            if !changed_at(collected, collected.len() as int, r, c) && in_range(range, r, c) && rows[r][c] != value@ {
                                assert(false);
                            }
                        }
                    }
                }
                assert(inverse_pair(rows, EditOperation::Cells(changes), new_rows));
            }
        }
        self.record_edit(EditOperation::Cells(changes), Ghost(rows));
        Ok(())
    }
}

proof fn lemma_apply_cells_none_extends(t: Rows, changes: Seq<CellChange>, k: int, direction: CommandDirection)
    requires
        0 <= k <= changes.len(),
        apply_cells(t, changes.take(k), direction) is None,
    ensures
        apply_cells(t, changes, direction) is None,
    decreases changes.len() - k,
{
    if k < changes.len() {
        assert(changes.take(k + 1).drop_last() =~= changes.take(k));
        lemma_apply_cells_none_extends(t, changes, k + 1, direction);
    } else {
        assert(changes.take(k) =~= changes);
    }
}

proof fn lemma_apply_columns_none_extends(
    t: Rows,
    changes: Seq<ColumnChange>,
    k: int,
    direction: CommandDirection,
)
    requires
        0 <= k <= changes.len(),
        apply_column_segments(t, changes.take(k), direction) is None,
    ensures
        apply_column_segments(t, changes, direction) is None,
    decreases changes.len() - k,
{
    if k < changes.len() {
        assert(changes.take(k + 1).drop_last() =~= changes.take(k));
        lemma_apply_columns_none_extends(t, changes, k + 1, direction);
    } else {
        assert(changes.take(k) =~= changes);
    }
}

proof fn lemma_batch_redo_none_extends(t: Rows, operations: Seq<EditOperation>, k: int)
    requires
        0 <= k <= operations.len(),
        apply_batch_redo(t, operations.take(k)) is None,
    ensures
        apply_batch_redo(t, operations) is None,
    decreases operations.len() - k,
{
    if k < operations.len() {
        assert(operations.take(k + 1).drop_last() =~= operations.take(k));
        lemma_batch_redo_none_extends(t, operations, k + 1);
    } else {
        assert(operations.take(k) =~= operations);
    }
}

/// A deep copy of a list of rows.
fn clone_rows(rows: &Vec<Vec<String>>) -> (copy: Vec<Vec<String>>)
    ensures
        copy.deep_view() == rows.deep_view(),
{
    let mut copy: Vec<Vec<String>> = Vec::new();
    let mut index: usize = 0;
    while index < rows.len()
        invariant
            index <= rows@.len(),
            copy@.len() == index,
            forall|i: int| 0 <= i < index ==> #[trigger] copy@[i].deep_view() == rows@[i].deep_view(),
        decreases rows@.len() - index,
    {
        copy.push(clone_row(&rows[index]));
        index += 1;
    }
    assert(copy.deep_view() =~= rows.deep_view());
    copy
}

/// A copy of a row of cells.
fn clone_row(row: &Vec<String>) -> (copy: Vec<String>)
    ensures
        copy.deep_view() == row.deep_view(),
        copy@ == row@,
{
    let mut copy: Vec<String> = Vec::new();
    let mut index: usize = 0;
    while index < row.len()
        invariant
            index <= row@.len(),
            copy@ == row@.take(index as int),
        decreases row@.len() - index,
    {
        copy.push(row[index].clone());
        index += 1;
        assert(copy@ =~= row@.take(index as int));
    }
    assert(row@.take(index as int) =~= row@);
    assert(copy.deep_view() =~= row.deep_view());
    copy
}

/// Whether two rows hold the same texts.
fn rows_equal(a: &[String], b: &[String]) -> (equal: bool)
    ensures
        equal == (a@.map_values(|s: String| s@) == b@.map_values(|s: String| s@)),
{
    if a.len() != b.len() {
        assert(a@.map_values(|s: String| s@).len() != b@.map_values(|s: String| s@).len());
        return false;
    }
    let mut index: usize = 0;
    while index < a.len()
        invariant
            index <= a@.len() == b@.len(),
            forall|i: int| 0 <= i < index ==> #[trigger] a@[i]@ == b@[i]@,
        decreases a@.len() - index,
    {
        if !(a[index] == b[index]) {
            assert(a@.map_values(|s: String| s@)[index as int] != b@.map_values(|s: String| s@)[index as int]);
            return false;
        }
        index += 1;
    }
    assert(a@.map_values(|s: String| s@) =~= b@.map_values(|s: String| s@));
    true
}

fn edit_error(text: &str) -> (error: DocumentError)
    ensures
        error matches DocumentError::Edit(message) && message@ == text@,
{
    DocumentError::Edit(String::from_str(text))
}

impl CsvDocument {
    /// Replays cell changes in order (the `before` texts when undoing, `after` when redoing).
    fn apply_cell_changes(&mut self, changes: &Vec<CellChange>, direction: CommandDirection) -> (result:
        Result<(), DocumentError>)
        ensures
            result is Ok <==> apply_cells(old(self)@, changes@, direction) is Some,
            result is Ok ==> Some(final(self)@) == apply_cells(
                old(self)@,
                changes@,
                direction,
            ),
            final(self).path == old(self).path,
            final(self).history == old(self).history,
            final(self).source_encoding == old(self).source_encoding,
            final(self).metadata_error == old(self).metadata_error,
            final(self).metadata == old(self).metadata,
    {
        let mut index: usize = 0;
        while index < changes.len()
            invariant
                index <= changes@.len(),
                apply_cells(old(self)@, changes@.take(index as int), direction)
                    == Some(self@),
                self.path == old(self).path,
                self.history == old(self).history,
                self.metadata == old(self).metadata,
                self.source_encoding == old(self).source_encoding,
                self.metadata_error == old(self).metadata_error,
                self.metadata == old(self).metadata,
            decreases changes@.len() - index,
        {
            let change = &changes[index];
            let value = match direction {
                CommandDirection::Undo => change.before.clone(),
                CommandDirection::Redo => change.after.clone(),
            };
            assert(changes@.take(index + 1).drop_last() =~= changes@.take(index as int));
            match self.table.set_cell(change.reference.row, change.reference.column, value) {
                Ok(_) => {},
                Err(_) => {
                    proof {
                        lemma_apply_cells_none_extends(old(self)@, changes@, index + 1, direction);
                    }
                    return Err(edit_error("edit history no longer matches the table"));
                },
            }
            index += 1;
        }
        assert(changes@.take(index as int) =~= changes@);
        Ok(())
    }

    /// Replays a row edit: the rows expected at its index are replaced by the others.
    #[verifier::loop_isolation(false)]
    fn apply_row_edit(&mut self, edit: &RowEdit, direction: CommandDirection) -> (result: Result<
        (),
        DocumentError,
    >)
        ensures
            result is Ok <==> apply_rows(old(self)@, *edit, direction) is Some,
            result is Ok ==> Some(final(self)@) == apply_rows(
                old(self)@,
                *edit,
                direction,
            ),
            result is Err ==> final(self)@ == old(self)@,
            final(self).path == old(self).path,
            final(self).history == old(self).history,
            final(self).source_encoding == old(self).source_encoding,
            final(self).metadata_error == old(self).metadata_error,
            final(self).metadata == old(self).metadata,
    {
        let (expected, replacement) = match direction {
            CommandDirection::Undo => (&edit.inserted, &edit.removed),
            CommandDirection::Redo => (&edit.removed, &edit.inserted),
        };
        let row_count = self.table.row_count();
        let end = match edit.index.checked_add(expected.len()) {
            Some(end) => end,
            None => {
                return Err(edit_error("row history range overflowed"));
            },
        };
        let rows = self.table.rows();
        if end > rows.len() {
            return Err(edit_error("edit history no longer matches the table rows"));
        }
        let mut index: usize = 0;
        while index < expected.len()
            invariant
                index <= expected@.len(),
                edit.index + expected@.len() == end <= rows@.len(),
                rows.deep_view() == old(self)@,
                forall|i: int|
                    0 <= i < index ==> #[trigger] old(self)@[edit.index + i]
                        == expected.deep_view()[i],
            decreases expected@.len() - index,
        {
            if !rows_equal(rows[edit.index + index].as_slice(), expected[index].as_slice()) {
                proof {
                    assert(rows.deep_view()[edit.index + index] =~= rows@[edit.index + index]@.map_values(|s: String| s@));
                    assert(expected.deep_view()[index as int] =~= expected@[index as int]@.map_values(|s: String| s@));
                    assert(old(self)@.subrange(edit.index as int, end as int)[index as int] != expected.deep_view()[index as int]);
                }
                return Err(edit_error("edit history no longer matches the table rows"));
            }
            proof {
                assert(rows.deep_view()[edit.index + index] =~= rows@[edit.index + index]@.map_values(|s: String| s@));
                assert(expected.deep_view()[index as int] =~= expected@[index as int]@.map_values(|s: String| s@));
            }
            index += 1;
        }
        assert forall|i: int| 0 <= i < expected@.len() implies #[trigger] old(self)@.subrange(edit.index as int, end as int)[i] == expected.deep_view()[i] by {
            assert(old(self)@[edit.index + i] == expected.deep_view()[i]);
        }
        assert(old(self)@.subrange(edit.index as int, end as int) =~= expected.deep_view());
        let copy = clone_rows(replacement);
        match self.table.replace_rows(edit.index, expected.len(), copy) {
            Ok(_) => Ok(()),
            Err(_) => Err(edit_error("edit history no longer matches the table")),
        }
    }
}

/// Whether `row[index..index + expected.len()]` exists and holds the texts of `expected`.
fn segment_equal(row: &Vec<String>, index: usize, expected: &Vec<String>) -> (equal: bool)
    ensures
        equal == (index + expected@.len() <= row@.len() && row.deep_view().subrange(
            index as int,
            index + expected@.len(),
        ) == expected.deep_view()),
{
    if index > row.len() || row.len() - index < expected.len() {
        return false;
    }
    let row_len = row.len();
    let mut offset: usize = 0;
    while offset < expected.len()
        invariant
            offset <= expected@.len(),
            row_len == row@.len(),
            index + expected@.len() <= row@.len(),
            forall|i: int| 0 <= i < offset ==> #[trigger] row@[index + i]@ == expected@[i]@,
        decreases expected@.len() - offset,
    {
        if !(row[index + offset] == expected[offset]) {
            assert(row.deep_view().subrange(index as int, index + expected@.len())[offset as int]
                != expected.deep_view()[offset as int]);
            return false;
        }
        offset += 1;
    }
    assert forall|i: int| 0 <= i < expected@.len() implies #[trigger] row.deep_view().subrange(index as int, index + expected@.len())[i] == expected.deep_view()[i] by {
        assert(row@[index + i]@ == expected@[i]@);
    }
    assert(row.deep_view().subrange(index as int, index + expected@.len()) =~= expected.deep_view());
    true
}

proof fn lemma_column_segments_prefix(
    t: Rows,
    changes: Seq<ColumnChange>,
    k: int,
    direction: CommandDirection,
)
    requires
        0 <= k < changes.len(),
    ensures
        changes.take(k + 1).drop_last() == changes.take(k),
        changes.take(k + 1).last() == changes[k],
{
    assert(changes.take(k + 1).drop_last() =~= changes.take(k));
}

impl CsvDocument {
    /// Replays column changes: checks every expected segment, then replaces each in order.
    #[verifier::loop_isolation(false)]
    fn apply_column_changes(&mut self, changes: &Vec<ColumnChange>, direction: CommandDirection) -> (result:
        Result<(), DocumentError>)
        ensures
            result is Ok <==> apply_columns(old(self)@, changes@, direction) is Some,
            result is Ok ==> Some(final(self)@) == apply_columns(old(self)@, changes@, direction),
            final(self).path == old(self).path,
            final(self).history == old(self).history,
            final(self).source_encoding == old(self).source_encoding,
            final(self).metadata_error == old(self).metadata_error,
            final(self).metadata == old(self).metadata,
    {
        let mut index: usize = 0;
        while index < changes.len()
            invariant
                index <= changes@.len(),
                self@ == old(self)@,
                forall|i: int| 0 <= i < index ==> column_matches(old(self)@, #[trigger] changes@[i], direction),
            decreases changes@.len() - index,
        {
            let change = &changes[index];
            let expected = match direction {
                CommandDirection::Undo => &change.inserted,
                CommandDirection::Redo => &change.removed,
            };
            let rows = self.table.rows();
            if change.row >= rows.len() || !segment_equal(&rows[change.row], change.index, expected) {
                assert(!column_matches(old(self)@, changes@[index as int], direction));
                return Err(edit_error("edit history no longer matches the table columns"));
            }
            index += 1;
        }
        let mut index: usize = 0;
        while index < changes.len()
            invariant
                index <= changes@.len(),
                forall|i: int| 0 <= i < changes@.len() ==> column_matches(old(self)@, #[trigger] changes@[i], direction),
                apply_column_segments(old(self)@, changes@.take(index as int), direction) == Some(self@),
                self.path == old(self).path,
                self.history == old(self).history,
                self.metadata == old(self).metadata,
                self.source_encoding == old(self).source_encoding,
                self.metadata_error == old(self).metadata_error,
                self.metadata == old(self).metadata,
            decreases changes@.len() - index,
        {
            let change = &changes[index];
            let (expected, replacement) = match direction {
                CommandDirection::Undo => (&change.inserted, &change.removed),
                CommandDirection::Redo => (&change.removed, &change.inserted),
            };
            proof {
                lemma_column_segments_prefix(old(self)@, changes@, index as int, direction);
            }
            match self.table.replace_row_segment(
                change.row,
                change.index,
                expected.len(),
                replacement.as_slice(),
            ) {
                Ok(_) => {
                    proof {
                        assert(replacement@.map_values(|s: String| s@) =~= replacement.deep_view());
                    }
                },
                Err(_) => {
                    proof {
                        lemma_apply_columns_none_extends(old(self)@, changes@, index + 1, direction);
                    }
                    return Err(edit_error("edit history no longer matches the table"));
                },
            }
            index += 1;
        }
        assert(changes@.take(index as int) =~= changes@);
        Ok(())
    }

    /// Replays a recorded operation in the given direction.
    fn apply_operation(&mut self, operation: &EditOperation, direction: CommandDirection) -> (result:
        Result<(), DocumentError>)
        ensures
            result is Ok <==> apply_operation(old(self)@, *operation, direction) is Some,
            result is Ok ==> Some(final(self)@) == apply_operation(old(self)@, *operation, direction),
            final(self).path == old(self).path,
            final(self).history == old(self).history,
            final(self).source_encoding == old(self).source_encoding,
            final(self).metadata_error == old(self).metadata_error,
            final(self).metadata == old(self).metadata,
        decreases operation,
    {
        match operation {
            EditOperation::Cells(changes) => self.apply_cell_changes(changes, direction),
            EditOperation::Rows(edit) => self.apply_row_edit(edit, direction),
            EditOperation::Columns(changes) => self.apply_column_changes(changes, direction),
            EditOperation::Batch(operations) => match direction {
                CommandDirection::Undo => {
                    let mut index = operations.len();
                    assert(operations@.take(operations@.len() as int) =~= operations@);
                    while index > 0
                        invariant
                            index <= operations@.len(),
                            direction == CommandDirection::Undo,
                            *operation == EditOperation::Batch(*operations),
                            apply_batch_undo(old(self)@, operations@) == apply_batch_undo(
                                self@,
                                operations@.take(index as int),
                            ),
                            self.path == old(self).path,
                            self.history == old(self).history,
                            self.metadata == old(self).metadata,
                            self.source_encoding == old(self).source_encoding,
                            self.metadata_error == old(self).metadata_error,
                            self.metadata == old(self).metadata,
                        decreases index,
                    {
                        assert(decreases_to!(operation => operations));
                        assert(decreases_to!(operations => operations@));
                        assert(decreases_to!(operations@ => operations@[index - 1]));
                        assert(operations@.take(index as int).drop_last() =~= operations@.take(index - 1));
                        assert(operations@.take(index as int).last() == operations@[index - 1]);
                        let ghost before = self@;
                        let step = self.apply_operation(&operations[index - 1], direction);
                        if step.is_err() {
                            assert(apply_operation(before, operations@[index - 1], CommandDirection::Undo) is None);
                            assert(operations@.take(index as int).len() > 0);
                            assert(apply_batch_undo(before, operations@.take(index as int)) is None);
                            return step;
                        }
                        assert(apply_batch_undo(before, operations@.take(index as int)) == apply_batch_undo(self@, operations@.take(index - 1)));
                        index -= 1;
                    }
                    assert(operations@.take(0) =~= Seq::<EditOperation>::empty());
                    Ok(())
                },
                CommandDirection::Redo => {
                    let mut index: usize = 0;
                    while index < operations.len()
                        invariant
                            index <= operations@.len(),
                            direction == CommandDirection::Redo,
                            *operation == EditOperation::Batch(*operations),
                            apply_batch_redo(old(self)@, operations@.take(index as int)) == Some(self@),
                            self.path == old(self).path,
                            self.history == old(self).history,
                            self.metadata == old(self).metadata,
                            self.source_encoding == old(self).source_encoding,
                            self.metadata_error == old(self).metadata_error,
                            self.metadata == old(self).metadata,
                        decreases operations@.len() - index,
                    {
                        assert(decreases_to!(operation => operations));
                        assert(decreases_to!(operations => operations@));
                        assert(decreases_to!(operations@ => operations@[index as int]));
                        assert(operations@.take(index + 1).drop_last() =~= operations@.take(index as int));
                        assert(operations@.take(index + 1).last() == operations@[index as int]);
                        let ghost before = self@;
                        let step = self.apply_operation(&operations[index], direction);
                        if step.is_err() {
                            assert(apply_batch_redo(old(self)@, operations@.take(index + 1)) is None);
                            proof {
                                lemma_batch_redo_none_extends(old(self)@, operations@, index + 1);
                            }
                            return step;
                        }
                        index += 1;
                    }
                    assert(operations@.take(index as int) =~= operations@);
                    Ok(())
                },
            },
        }
    }
}

/// `count` rows of `width` empty cells.
pub open spec fn empty_rows(count: nat, width: nat) -> Rows {
    Seq::new(count, |i: int| Seq::new(width, |j: int| Seq::<char>::empty()))
}

/// `count` empty cells.
pub open spec fn empty_cells(count: nat) -> Seq<Seq<char>> {
    Seq::new(count, |j: int| Seq::<char>::empty())
}

/// The table after inserting `count` empty cells at `index` in every row long enough.
pub open spec fn insert_columns_rows(rows: Rows, index: int, count: nat) -> Rows {
    Seq::new(
        rows.len(),
        |r: int|
            if index <= rows[r].len() {
                splice(rows[r], index, 0, empty_cells(count))
            } else {
                rows[r]
            },
    )
}

/// The table after removing cells `index..end` from every row (as far as each row reaches).
pub open spec fn delete_columns_rows(rows: Rows, index: int, end: int) -> Rows {
    Seq::new(
        rows.len(),
        |r: int|
            if index < rows[r].len() {
                splice(
                    rows[r],
                    index,
                    (if end <= rows[r].len() {
                        end
                    } else {
                        rows[r].len() as int
                    }) - index,
                    Seq::empty(),
                )
            } else {
                rows[r]
            },
    )
}

fn empty_row(width: usize) -> (row: Vec<String>)
    ensures
        row.deep_view() == empty_cells(width as nat),
        row@.len() == width,
{
    let mut row: Vec<String> = Vec::new();
    while row.len() < width
        invariant
            row@.len() <= width,
            forall|j: int| 0 <= j < row@.len() ==> #[trigger] row@[j]@ == Seq::<char>::empty(),
        decreases width - row@.len(),
    {
        row.push(String::new());
    }
    assert(row.deep_view() =~= empty_cells(width as nat));
    row
}

fn make_empty_rows(count: usize, width: usize) -> (rows: Vec<Vec<String>>)
    ensures
        rows.deep_view() == empty_rows(count as nat, width as nat),
{
    let mut rows: Vec<Vec<String>> = Vec::new();
    while rows.len() < count
        invariant
            rows@.len() <= count,
            forall|i: int| 0 <= i < rows@.len() ==> #[trigger] rows@[i].deep_view() == empty_cells(width as nat),
        decreases count - rows@.len(),
    {
        rows.push(empty_row(width));
    }
    assert(rows.deep_view() =~= empty_rows(count as nat, width as nat));
    rows
}

fn transaction_error(text: &str) -> (error: DocumentError)
    ensures
        error matches DocumentError::Transaction(message) && message@ == text@,
{
    DocumentError::Transaction(String::from_str(text))
}

impl CsvDocument {
    /// Sets one cell, which must exist, as an undoable edit.
    pub fn set_cell(&mut self, row: usize, column: usize, value: &str) -> (result: Result<
        (),
        DocumentError,
    >)
        requires
            old(self).wf(),
        ensures
            final(self).spec_declarations() == old(self).spec_declarations(),
            final(self).wf(),
            result is Ok <==> (row < old(self)@.len() && column < old(self)@[row as int].len()),
            result is Ok ==> final(self)@ == old(self)@.update(
                row as int,
                old(self)@[row as int].update(column as int, value@),
            ),
            result is Err ==> final(self)@ == old(self)@ && (result matches Err(DocumentError::Edit(message))
                && message@ == missing_cell_text(row as int, column as int)),
            final(self).spec_path() == old(self).spec_path(),
            final(self).spec_encoding() == old(self).spec_encoding(),
            final(self).spec_transaction_active() == old(self).spec_transaction_active(),
            result is Ok && !old(self).spec_transaction_active() && final(self)@ != old(self)@ ==> edited(
                *old(self),
                *final(self),
            ),
            result is Ok && old(self).spec_transaction_active() && final(self)@ != old(self)@
                ==> transaction_edited(*old(self), *final(self)),
            result is Ok && final(self)@ == old(self)@ ==> same_history(*old(self), *final(self)),
            result is Err ==> same_history(*old(self), *final(self)),
    {
        let reference = CellRef::new(row, column);
        let range = CellRange::new(reference, reference);
        let ghost rows = self@;
        let result = self.set_range_value(range, value);
        proof {
            assert(in_range(range, row as int, column as int));
            if result is Ok {
                assert(self@ =~= rows.update(row as int, rows[row as int].update(column as int, value@))) by {
                    assert forall|r: int| 0 <= r < rows.len() implies #[trigger] self@[r] =~= rows.update(
                        row as int,
                        rows[row as int].update(column as int, value@),
                    )[r] by {}
                }
            }
        }
        result
    }

    pub fn set_cell_ref(&mut self, reference: CellRef, value: &str) -> (result: Result<
        (),
        DocumentError,
    >)
        requires
            old(self).wf(),
        ensures
            final(self).spec_declarations() == old(self).spec_declarations(),
            final(self).wf(),
            result is Ok <==> (reference.row < old(self)@.len() && reference.column
                < old(self)@[reference.row as int].len()),
            result is Ok ==> final(self)@ == old(self)@.update(
                reference.row as int,
                old(self)@[reference.row as int].update(reference.column as int, value@),
            ),
            result is Err ==> final(self)@ == old(self)@,
            final(self).spec_transaction_active() == old(self).spec_transaction_active(),
            result is Ok && !old(self).spec_transaction_active() && final(self)@ != old(self)@ ==> edited(
                *old(self),
                *final(self),
            ),
            result is Ok && old(self).spec_transaction_active() && final(self)@ != old(self)@
                ==> transaction_edited(*old(self), *final(self)),
            result is Ok && final(self)@ == old(self)@ ==> same_history(*old(self), *final(self)),
            result is Err ==> same_history(*old(self), *final(self)),
    {
        self.set_cell(reference.row, reference.column, value)
    }

    /// Sets the cell named by an A1 reference.
    pub fn set_cell_a1(&mut self, reference: &str, value: &str) -> (result: Result<
        (),
        DocumentError,
    >)
        requires
            old(self).wf(),
        ensures
            final(self).spec_declarations() == old(self).spec_declarations(),
            final(self).wf(),
            result is Ok ==> exists|cell: CellRef|
                a1_result(reference@, Ok(cell)) && cell.row < old(self)@.len() && cell.column
                    < old(self)@[cell.row as int].len() && final(self)@ == old(self)@.update(
                    cell.row as int,
                    old(self)@[cell.row as int].update(cell.column as int, value@),
                ),
            result matches Err(DocumentError::Reference(error)) ==> a1_result(reference@, Err(error)),
            result is Err ==> final(self)@ == old(self)@,
            final(self).spec_transaction_active() == old(self).spec_transaction_active(),
            result is Ok && !old(self).spec_transaction_active() && final(self)@ != old(self)@ ==> edited(
                *old(self),
                *final(self),
            ),
            result is Ok && old(self).spec_transaction_active() && final(self)@ != old(self)@
                ==> transaction_edited(*old(self), *final(self)),
            result is Ok && final(self)@ == old(self)@ ==> same_history(*old(self), *final(self)),
            result is Err ==> same_history(*old(self), *final(self)),
    {
        match CellRef::parse_a1(reference) {
            Ok(cell) => self.set_cell(cell.row, cell.column, value),
            Err(error) => Err(DocumentError::Reference(error)),
        }
    }

    /// Sets every cell of an A1 range such as `A1:B4`.
    pub fn set_range_a1(&mut self, range: &str, value: &str) -> (result: Result<
        (),
        DocumentError,
    >)
        requires
            old(self).wf(),
        ensures
            final(self).spec_declarations() == old(self).spec_declarations(),
            final(self).wf(),
            result is Ok ==> exists|parsed: CellRange|
                range_result(range@, Ok(parsed)) && range_exists(old(self)@, parsed)
                    && final(self)@ == fill_range(old(self)@, parsed, value@),
            result matches Err(DocumentError::Reference(error)) ==> range_result(range@, Err(error)),
            result is Err ==> final(self)@ == old(self)@,
            final(self).spec_transaction_active() == old(self).spec_transaction_active(),
            result is Ok && !old(self).spec_transaction_active() && final(self)@ != old(self)@ ==> edited(
                *old(self),
                *final(self),
            ),
            result is Ok && old(self).spec_transaction_active() && final(self)@ != old(self)@
                ==> transaction_edited(*old(self), *final(self)),
            result is Ok && final(self)@ == old(self)@ ==> same_history(*old(self), *final(self)),
            result is Err ==> same_history(*old(self), *final(self)),
    {
        match CellRange::parse_a1(range) {
            Ok(parsed) => self.set_range_value(parsed, value),
            Err(error) => Err(DocumentError::Reference(error)),
        }
    }

    /// Inserts `count` rows of empty cells at `index`, as wide as the widest row (at least one).
    #[verifier::rlimit(40)]
    pub fn insert_rows(&mut self, index: usize, count: usize) -> (result: Result<(), DocumentError>)
        requires
            old(self).wf(),
        ensures
            final(self).spec_declarations() == old(self).spec_declarations(),
            final(self).wf(),
            result is Ok <==> index <= old(self)@.len(),
            result is Ok ==> final(self)@ == splice(
                old(self)@,
                index as int,
                0,
                empty_rows(
                    count as nat,
                    if max_width(old(self)@) > 1 {
                        max_width(old(self)@)
                    } else {
                        1
                    },
                ),
            ),
            result is Err ==> final(self)@ == old(self)@,
            final(self).spec_transaction_active() == old(self).spec_transaction_active(),
            result is Ok && !old(self).spec_transaction_active() && final(self)@ != old(self)@ ==> edited(
                *old(self),
                *final(self),
            ),
            result is Ok && old(self).spec_transaction_active() && final(self)@ != old(self)@
                ==> transaction_edited(*old(self), *final(self)),
            result is Ok && final(self)@ == old(self)@ ==> same_history(*old(self), *final(self)),
            result is Err ==> same_history(*old(self), *final(self)),
    {
        let ghost before = self@;
        let width = self.table.column_count();
        let width = if width > 1 { width } else { 1 };
        let inserted = make_empty_rows(count, width);
        let recorded = clone_rows(&inserted);
        let removed = match self.table.replace_rows(index, 0, inserted) {
            Ok(removed) => removed,
            Err(_) => {
                return Err(edit_error("row insertion index is out of bounds"));
            },
        };
        let edit = RowEdit { index, removed, inserted: recorded };
        proof {
            assert(edit.removed.deep_view().len() == edit.removed@.len());
            assert(edit.inserted.deep_view().len() == edit.inserted@.len());
            if operation_is_empty(EditOperation::Rows(edit)) {
                assert(self@ =~= before);
            } else {
                lemma_rows_inverse(before, edit, self@);
            }
        }
        self.record_edit(EditOperation::Rows(edit), Ghost(before));
        Ok(())
    }

    /// Removes `count` rows starting at `index`.
    #[verifier::rlimit(40)]
    pub fn delete_rows(&mut self, index: usize, count: usize) -> (result: Result<(), DocumentError>)
        requires
            old(self).wf(),
        ensures
            final(self).spec_declarations() == old(self).spec_declarations(),
            final(self).wf(),
            result is Ok <==> index + count <= old(self)@.len(),
            result is Ok ==> final(self)@ == splice(old(self)@, index as int, count as int, Seq::empty()),
            result is Err ==> final(self)@ == old(self)@,
            final(self).spec_transaction_active() == old(self).spec_transaction_active(),
            result is Ok && !old(self).spec_transaction_active() && final(self)@ != old(self)@ ==> edited(
                *old(self),
                *final(self),
            ),
            result is Ok && old(self).spec_transaction_active() && final(self)@ != old(self)@
                ==> transaction_edited(*old(self), *final(self)),
            result is Ok && final(self)@ == old(self)@ ==> same_history(*old(self), *final(self)),
            result is Err ==> same_history(*old(self), *final(self)),
    {
        let ghost before = self@;
        let nothing: Vec<Vec<String>> = Vec::new();
        assert(nothing.deep_view() =~= Seq::<Seq<Seq<char>>>::empty());
        let removed = match self.table.replace_rows(index, count, nothing) {
            Ok(removed) => removed,
            Err(_) => {
                return Err(edit_error("row range is out of bounds"));
            },
        };
        let edit = RowEdit { index, removed, inserted: Vec::new() };
        proof {
            assert(edit.removed.deep_view().len() == edit.removed@.len());
            assert(edit.inserted.deep_view() =~= Seq::<Seq<Seq<char>>>::empty());
            if operation_is_empty(EditOperation::Rows(edit)) {
                assert(self@ =~= before);
            } else {
                lemma_rows_inverse(before, edit, self@);
            }
        }
        self.record_edit(EditOperation::Rows(edit), Ghost(before));
        Ok(())
    }
}

impl CsvDocument {
    /// Inserts `count` empty cells at column `index` of every row that reaches that
    /// column; shorter rows keep their shape.
    #[verifier::loop_isolation(false)]
    #[verifier::rlimit(100)]
    pub fn insert_columns(&mut self, index: usize, count: usize) -> (result: Result<
        (),
        DocumentError,
    >)
        requires
            old(self).wf(),
        ensures
            final(self).spec_declarations() == old(self).spec_declarations(),
            final(self).wf(),
            result is Ok <==> index <= max_width(old(self)@),
            result is Ok ==> final(self)@ == insert_columns_rows(old(self)@, index as int, count as nat),
            result is Err ==> final(self)@ == old(self)@,
            final(self).spec_transaction_active() == old(self).spec_transaction_active(),
            result is Ok && !old(self).spec_transaction_active() && final(self)@ != old(self)@ ==> edited(
                *old(self),
                *final(self),
            ),
            result is Ok && !old(self).spec_transaction_active() ==> edited(*old(self), *final(self)) || same_history(
                *old(self),
                *final(self),
            ),
            result is Ok && old(self).spec_transaction_active() ==> transaction_edited(*old(self), *final(self))
                || same_history(*old(self), *final(self)),
            result is Err ==> same_history(*old(self), *final(self)),
    {
        let column_count = self.table.column_count();
        if index > column_count {
            return Err(edit_error("column insertion index is out of bounds"));
        }
        let ghost rows = self@;
        let row_count = self.table.row_count();
        let mut changes: Vec<ColumnChange> = Vec::new();
        let mut row: usize = 0;
        while row < row_count
            invariant
                row <= row_count == rows.len(),
                self@.len() == rows.len(),
                self.history == old(self).history,
                self.metadata == old(self).metadata,
                forall|r: int|
                    0 <= r < rows.len() ==> #[trigger] self@[r] == if r < row {
                        insert_columns_rows(rows, index as int, count as nat)[r]
                    } else {
                        rows[r]
                    },
                forall|k: int|
                    0 <= k < changes@.len() ==> {
                        let ch = #[trigger] changes@[k];
                        &&& ch.row < row
                        &&& ch.index == index
                        &&& ch.removed@.len() == 0
                        &&& ch.inserted.deep_view() == empty_cells(count as nat)
                        &&& index <= rows[ch.row as int].len()
                    },
                forall|j: int, k: int| 0 <= j < k < changes@.len() ==> #[trigger] changes@[j].row < #[trigger] changes@[k].row,
                forall|r: int| 0 <= r < row ==> (index <= rows[r].len() <==> #[trigger] change_for_row(changes@, r)),
            decreases row_count - row,
        {
            let width = self.table.rows()[row].len();
            if index <= width {
                let inserted = empty_row(count);
                let ghost before = self@;
                let result = self.table.replace_row_segment(row, index, 0, inserted.as_slice());
                proof {
                    assert(result is Ok);
                    assert(inserted@.map_values(|s: String| s@) =~= empty_cells(count as nat));
                    assert(inserted.deep_view() =~= empty_cells(count as nat));
                }
                let ghost old_changes = changes@;
                changes.push(ColumnChange { row, index, removed: Vec::new(), inserted });
                proof {
                    assert forall|r: int| 0 <= r < row + 1 implies (index <= rows[r].len() <==> #[trigger] change_for_row(changes@, r)) by {
                        if r < row {
                            if change_for_row(old_changes, r) {
                                let k = choose|k: int| 0 <= k < old_changes.len() && #[trigger] old_changes[k].row == r;
                                assert(changes@[k] == old_changes[k]);
                            }
                            if change_for_row(changes@, r) {
                                let k = choose|k: int| 0 <= k < changes@.len() && #[trigger] changes@[k].row == r;
                                if k < old_changes.len() {
                                    assert(changes@[k] == old_changes[k]);
                                }
                            }
                        } else {
                            assert(changes@[changes@.len() - 1].row == r);
                        }
                    }
                }
            } else {
                proof {
                    assert forall|r: int| 0 <= r < row + 1 implies (index <= rows[r].len() <==> #[trigger] change_for_row(changes@, r)) by {
                        assert(self@[row as int] == rows[row as int]);
                        if r == row {
                            if change_for_row(changes@, r) {
                                let k = choose|k: int| 0 <= k < changes@.len() && #[trigger] changes@[k].row == r;
                                assert(changes@[k].row < row);
                            }
                        }
                    }
                }
            }
            row += 1;
        }
        assert(self@ =~= insert_columns_rows(rows, index as int, count as nat));
        proof {
            let after = self@;
            if changes@.len() == 0 {
                assert(after =~= rows) by {
                    assert forall|r: int| 0 <= r < rows.len() implies #[trigger] after[r] == rows[r] by {
                        assert(!change_for_row(changes@, r));
                    }
                }
            } else {
                assert forall|k: int| 0 <= k < changes@.len() implies {
                    let ch = #[trigger] changes@[k];
                    &&& ch.row < rows.len()
                    &&& ch.index + ch.removed@.len() <= rows[ch.row as int].len()
                    &&& rows[ch.row as int].subrange(ch.index as int, ch.index + ch.removed@.len()) == ch.removed.deep_view()
                    &&& after[ch.row as int] == splice(rows[ch.row as int], ch.index as int, ch.removed@.len() as int, ch.inserted.deep_view())
                } by {
                    let ch = changes@[k];
                    assert(ch.removed.deep_view() =~= Seq::<Seq<char>>::empty());
                    assert(rows[ch.row as int].subrange(ch.index as int, ch.index as int) =~= Seq::<Seq<char>>::empty());
                }
                assert forall|r: int| 0 <= r < rows.len() && !change_for_row(changes@, r) implies #[trigger] after[r] == rows[r] by {}
                assert(column_edit(rows, changes@, after));
                lemma_columns_inverse(rows, changes@, after);
            }
        }
        self.record_edit(EditOperation::Columns(changes), Ghost(rows));
        Ok(())
    }

    /// Removes columns `index..index + count`; rows that end earlier lose only what they have.
    #[verifier::loop_isolation(false)]
    #[verifier::rlimit(100)]
    pub fn delete_columns(&mut self, index: usize, count: usize) -> (result: Result<
        (),
        DocumentError,
    >)
        requires
            old(self).wf(),
        ensures
            final(self).spec_declarations() == old(self).spec_declarations(),
            final(self).wf(),
            result is Ok <==> index + count <= max_width(old(self)@),
            result is Ok ==> final(self)@ == delete_columns_rows(old(self)@, index as int, index + count),
            result is Err ==> final(self)@ == old(self)@,
            final(self).spec_transaction_active() == old(self).spec_transaction_active(),
            result is Ok && !old(self).spec_transaction_active() && final(self)@ != old(self)@ ==> edited(
                *old(self),
                *final(self),
            ),
            result is Ok && !old(self).spec_transaction_active() ==> edited(*old(self), *final(self)) || same_history(
                *old(self),
                *final(self),
            ),
            result is Ok && old(self).spec_transaction_active() ==> transaction_edited(*old(self), *final(self))
                || same_history(*old(self), *final(self)),
            result is Err ==> same_history(*old(self), *final(self)),
    {
        let column_count = self.table.column_count();
        let end = match index.checked_add(count) {
            Some(end) => end,
            None => {
                return Err(edit_error("column range arithmetic overflowed"));
            },
        };
        if index > column_count || end > column_count {
            return Err(edit_error("column range exceeds the table's columns"));
        }
        let ghost rows = self@;
        let row_count = self.table.row_count();
        let mut changes: Vec<ColumnChange> = Vec::new();
        let mut row: usize = 0;
        while row < row_count
            invariant
                row <= row_count == rows.len(),
                self@.len() == rows.len(),
                self.history == old(self).history,
                self.metadata == old(self).metadata,
                forall|r: int|
                    0 <= r < rows.len() ==> #[trigger] self@[r] == if r < row {
                        delete_columns_rows(rows, index as int, end as int)[r]
                    } else {
                        rows[r]
                    },
                forall|k: int|
                    0 <= k < changes@.len() ==> {
                        let ch = #[trigger] changes@[k];
                        &&& ch.row < row
                        &&& ch.index == index
                        &&& index < rows[ch.row as int].len()
                        &&& ch.index + ch.removed@.len() <= rows[ch.row as int].len()
                        &&& rows[ch.row as int].subrange(ch.index as int, ch.index + ch.removed@.len()) == ch.removed.deep_view()
                        &&& delete_columns_rows(rows, index as int, end as int)[ch.row as int] == splice(
                            rows[ch.row as int],
                            ch.index as int,
                            ch.removed@.len() as int,
                            ch.inserted.deep_view(),
                        )
                    },
                forall|j: int, k: int| 0 <= j < k < changes@.len() ==> #[trigger] changes@[j].row < #[trigger] changes@[k].row,
                forall|r: int| 0 <= r < row ==> (index < rows[r].len() <==> #[trigger] change_for_row(changes@, r)),
            decreases row_count - row,
        {
            let width = self.table.rows()[row].len();
            if index < width {
                let row_end = if end <= width { end } else { width };
                let ghost before_row = self@[row as int];
                let nothing: Vec<String> = Vec::new();
                let result = self.table.replace_row_segment(row, index, row_end - index, nothing.as_slice());
                proof {
                    assert(result is Ok);
                    assert(nothing@.map_values(|s: String| s@) =~= Seq::<Seq<char>>::empty());
                }
                let removed = match result {
                    Ok(removed) => removed,
                    Err(_) => Vec::new(),
                };
                let ghost old_changes = changes@;
                proof {
                    assert(before_row == rows[row as int]);
                    assert(removed.deep_view().len() == removed@.len());
                    assert(nothing.deep_view() =~= Seq::<Seq<char>>::empty());
                }
                let change = ColumnChange { row, index, removed, inserted: nothing };
                proof {
                    assert(delete_columns_rows(rows, index as int, end as int)[row as int] =~= splice(
                        rows[row as int],
                        change.index as int,
                        change.removed@.len() as int,
                        change.inserted.deep_view(),
                    ));
                }
                changes.push(change);
                proof {
                    assert forall|r: int| 0 <= r < row + 1 implies (index < rows[r].len() <==> #[trigger] change_for_row(changes@, r)) by {
                        if r < row {
                            if change_for_row(old_changes, r) {
                                let k = choose|k: int| 0 <= k < old_changes.len() && #[trigger] old_changes[k].row == r;
                                assert(changes@[k] == old_changes[k]);
                            }
                            if change_for_row(changes@, r) {
                                let k = choose|k: int| 0 <= k < changes@.len() && #[trigger] changes@[k].row == r;
                                if k < old_changes.len() {
                                    assert(changes@[k] == old_changes[k]);
                                }
                            }
                        } else {
                            assert(changes@[changes@.len() - 1].row == r);
                        }
                    }
                }
            } else {
                proof {
                    assert(self@[row as int] == rows[row as int]);
                    assert forall|r: int| 0 <= r < row + 1 implies (index < rows[r].len() <==> #[trigger] change_for_row(changes@, r)) by {
                        if r == row {
                            if change_for_row(changes@, r) {
                                let k = choose|k: int| 0 <= k < changes@.len() && #[trigger] changes@[k].row == r;
                                assert(changes@[k].row < row);
                            }
                        }
                    }
                }
            }
            row += 1;
        }
        assert(self@ =~= delete_columns_rows(rows, index as int, end as int));
        proof {
            let after = self@;
            if changes@.len() == 0 {
                assert(after =~= rows) by {
                    assert forall|r: int| 0 <= r < rows.len() implies #[trigger] after[r] == rows[r] by {
                        assert(!change_for_row(changes@, r));
                    }
                }
            } else {
                assert forall|r: int| 0 <= r < rows.len() && !change_for_row(changes@, r) implies #[trigger] after[r] == rows[r] by {}
                assert(column_edit(rows, changes@, after));
                lemma_columns_inverse(rows, changes@, after);
            }
        }
        self.record_edit(EditOperation::Columns(changes), Ghost(rows));
        Ok(())
    }

    /// Opens a transaction that groups the following edits into one undo step.
    pub fn begin_transaction(&mut self) -> (result: Result<(), DocumentError>)
        requires
            old(self).wf(),
        ensures
            final(self).spec_declarations() == old(self).spec_declarations(),
            final(self).wf(),
            result is Ok <==> !old(self).spec_transaction_active(),
            result is Err ==> (result matches Err(DocumentError::Transaction(message)) && message@
                == "a transaction is already active"@),
            final(self)@ == old(self)@,
            final(self).spec_transaction_active(),
            result is Ok ==> final(self).spec_transaction_base() == old(self)@,
            result is Ok ==> began(*old(self), *final(self)),
            result is Err ==> same_history(*old(self), *final(self)),
    {
        if !self.history.begin_transaction() {
            return Err(transaction_error("a transaction is already active"));
        }
        Ok(())
    }

    /// Closes the open transaction, keeping its edits as one undo step.
    pub fn commit_transaction(&mut self) -> (result: Result<(), DocumentError>)
        requires
            old(self).wf(),
        ensures
            final(self).spec_declarations() == old(self).spec_declarations(),
            final(self).wf(),
            result is Ok <==> old(self).spec_transaction_active(),
            result is Err ==> (result matches Err(DocumentError::Transaction(message)) && message@
                == "no transaction is active"@),
            final(self)@ == old(self)@,
            !final(self).spec_transaction_active(),
            result is Ok && old(self).spec_transaction_base() != old(self)@ ==> {
                &&& final(self).spec_can_undo()
                &&& final(self).spec_undo_target() == old(self).spec_transaction_base()
                &&& !final(self).spec_can_redo()
            },
            result is Ok ==> committed(*old(self), *final(self)),
            result is Err ==> same_history(*old(self), *final(self)),
    {
        let ghost old_history = self.history;
        let ghost table = self@;
        let had_changes = match &self.history.transaction {
            Some(operations) => operations.len() > 0,
            None => false,
        };
        proof {
            if old_history.transaction is Some {
                lemma_all_non_empty(old_history.transaction.unwrap()@);
            }
        }
        if !self.history.commit_transaction() {
            return Err(transaction_error("no transaction is active"));
        }
        if had_changes {
            self.history.undo_states = Ghost(old_history.undo_states@.push(old_history.base@));
            self.history.redo_states = Ghost(Seq::empty());
            self.history.base = Ghost(table);
            proof {
                let operations = old_history.transaction.unwrap()@;
                lemma_batch_inverse(old_history.transaction_states@, operations, table);
                let commands = self.history.undo@;
                let states = self.history.undo_states@;
                assert(commands.last().operation matches EditOperation::Batch(batch) && batch@ == operations);
                assert(inverse_pair(old_history.base@, commands.last().operation, table));
                assert forall|i: int| 0 <= i < commands.len() implies inverse_pair(
                    #[trigger] states[i],
                    commands[i].operation,
                    if i + 1 < commands.len() {
                        states[i + 1]
                    } else {
                        self.history.base@
                    },
                ) by {
                    if i < old_history.undo@.len() {
                        assert(commands[i] == old_history.undo@[i]);
                    }
                }
            }
        }
        self.history.transaction_states = Ghost(Seq::empty());
        Ok(())
    }

    /// Undoes the open transaction's edits in reverse order and closes it without
    /// adding history: the table is back to what it was when the transaction began.
    #[verifier::loop_isolation(false)]
    #[verifier::rlimit(40)]
    pub fn rollback_transaction(&mut self) -> (result: Result<(), DocumentError>)
        requires
            old(self).wf(),
        ensures
            final(self).spec_declarations() == old(self).spec_declarations(),
            final(self).wf(),
            result is Ok <==> old(self).spec_transaction_active(),
            !old(self).spec_transaction_active() ==> (result matches Err(DocumentError::Transaction(message))
                && message@ == "no transaction is active"@ && final(self)@ == old(self)@),
            result is Ok ==> !final(self).spec_transaction_active() && final(self)@
                == old(self).spec_transaction_base(),
            result is Ok ==> rolled_back(*old(self), *final(self)),
            result is Err ==> same_history(*old(self), *final(self)),
    {
        let ghost old_history = self.history;
        let ghost table = self@;
        let operations = match self.history.take_transaction() {
            Some(operations) => operations,
            None => {
                return Err(transaction_error("no transaction is active"));
            },
        };
        let ghost states = old_history.transaction_states@;
        let mut index = operations.len();
        while index > 0
            invariant
                index <= operations@.len(),
                operations@ == old_history.transaction.unwrap()@,
                self.history.transaction is None,
                self.metadata == old(self).metadata,
                transaction_chain(states, operations@, table),
                self@ == if index == operations@.len() { table } else { states[index as int] },
                self.history.undo == old_history.undo,
                self.history.redo == old_history.redo,
                self.history.current_state_id == old_history.current_state_id,
                self.history.saved_state_id == old_history.saved_state_id,
                self.history.next_state_id == old_history.next_state_id,
                points_chained(self.history),
                same_model(self.history, old_history),
            decreases index,
        {
            let ghost k = index - 1;
            assert(inverse_pair(states[k], operations@[k], if k + 1 < operations@.len() { states[k + 1] } else { table }));
            match self.apply_operation(&operations[index - 1], CommandDirection::Undo) {
                Ok(()) => {},
                Err(error) => {
                    self.history.restore_transaction(operations);
                    return Err(error);
                },
            }
            index -= 1;
        }
        self.history.transaction_states = Ghost(Seq::empty());
        Ok(())
    }

    fn ensure_no_transaction(&self, operation: &str) -> (result: Result<(), DocumentError>)
        ensures
            result is Ok <==> !self.spec_transaction_active(),
            result is Err ==> (result matches Err(DocumentError::Transaction(message)) && message@
                == busy_message(operation@)),
    {
        if self.history.transaction_active() {
            let mut message = String::from_str("cannot ");
            message.append(operation);
            message.append(" while a transaction is active");
            return Err(DocumentError::Transaction(message));
        }
        Ok(())
    }

    /// Reverts the latest undo step; `Ok(false)` when there is none. The table goes back to
    /// what it was before that step, which `redo` then gives back again.
    pub fn undo(&mut self) -> (result: Result<bool, DocumentError>)
        requires
            old(self).wf(),
        ensures
            final(self).spec_declarations() == old(self).spec_declarations(),
            final(self).wf(),
            old(self).spec_transaction_active() ==> (result matches Err(DocumentError::Transaction(message))
                && message@ == busy_message("undo"@) && final(self)@ == old(self)@),
            !old(self).spec_transaction_active() && !old(self).spec_can_undo() ==> result == Ok::<
                bool,
                DocumentError,
            >(false) && final(self)@ == old(self)@,
            !old(self).spec_transaction_active() && old(self).spec_can_undo() ==> {
                &&& result == Ok::<bool, DocumentError>(true)
                &&& undone(*old(self), *final(self))
            },
            !final(self).spec_transaction_active() || old(self).spec_transaction_active(),
            old(self).spec_transaction_active() || !old(self).spec_can_undo() ==> same_history(
                *old(self),
                *final(self),
            ),
    {
        self.ensure_no_transaction("undo")?;
        let ghost old_history = self.history;
        let ghost table = self@;
        let command = match self.history.take_undo() {
            Some(command) => command,
            None => {
                return Ok(false);
            },
        };
        let ghost n = old_history.undo@.len() as int;
        let ghost target = old_history.undo_states@[n - 1];
        assert(inverse_pair(target, command.operation, table));
        match self.apply_operation(&command.operation, CommandDirection::Undo) {
            Ok(()) => {},
            Err(error) => {
                self.history.restore_undo(command);
                return Err(error);
            },
        }
        self.history.commit_undo(command);
        self.history.undo_states = Ghost(old_history.undo_states@.drop_last());
        self.history.redo_states = Ghost(old_history.redo_states@.push(table));
        self.history.base = Ghost(target);
        proof {
            let undo_commands = self.history.undo@;
            let undo_states = self.history.undo_states@;
            assert forall|i: int| 0 <= i < undo_commands.len() implies inverse_pair(
                #[trigger] undo_states[i],
                undo_commands[i].operation,
                if i + 1 < undo_commands.len() {
                    undo_states[i + 1]
                } else {
                    self.history.base@
                },
            ) by {
                assert(undo_commands[i] == old_history.undo@[i]);
                assert(undo_states[i] == old_history.undo_states@[i]);
            }
            let redo_commands = self.history.redo@;
            let redo_states = self.history.redo_states@;
            assert forall|j: int| 0 <= j < redo_commands.len() implies inverse_pair(
                if j + 1 < redo_commands.len() {
                    redo_states[j + 1]
                } else {
                    self.history.base@
                },
                redo_commands[j].operation,
                #[trigger] redo_states[j],
            ) by {
                if j < old_history.redo@.len() {
                    assert(redo_commands[j] == old_history.redo@[j]);
                    assert(redo_states[j] == old_history.redo_states@[j]);
                }
            }
        }
        Ok(true)
    }

    /// Re-applies the latest undone step; `Ok(false)` when there is none. The table goes
    /// back to what it was before that step was undone.
    pub fn redo(&mut self) -> (result: Result<bool, DocumentError>)
        requires
            old(self).wf(),
        ensures
            final(self).spec_declarations() == old(self).spec_declarations(),
            final(self).wf(),
            old(self).spec_transaction_active() ==> (result matches Err(DocumentError::Transaction(message))
                && message@ == busy_message("redo"@) && final(self)@ == old(self)@),
            !old(self).spec_transaction_active() && !old(self).spec_can_redo() ==> result == Ok::<
                bool,
                DocumentError,
            >(false) && final(self)@ == old(self)@,
            !old(self).spec_transaction_active() && old(self).spec_can_redo() ==> {
                &&& result == Ok::<bool, DocumentError>(true)
                &&& redone(*old(self), *final(self))
            },
            !final(self).spec_transaction_active() || old(self).spec_transaction_active(),
            old(self).spec_transaction_active() || !old(self).spec_can_redo() ==> same_history(
                *old(self),
                *final(self),
            ),
    {
        self.ensure_no_transaction("redo")?;
        let ghost old_history = self.history;
        let ghost table = self@;
        let command = match self.history.take_redo() {
            Some(command) => command,
            None => {
                return Ok(false);
            },
        };
        let ghost m = old_history.redo@.len() as int;
        let ghost target = old_history.redo_states@[m - 1];
        assert(inverse_pair(table, command.operation, target));
        match self.apply_operation(&command.operation, CommandDirection::Redo) {
            Ok(()) => {},
            Err(error) => {
                self.history.restore_redo(command);
                return Err(error);
            },
        }
        self.history.commit_redo(command);
        self.history.undo_states = Ghost(old_history.undo_states@.push(table));
        self.history.redo_states = Ghost(old_history.redo_states@.drop_last());
        self.history.base = Ghost(target);
        proof {
            let undo_commands = self.history.undo@;
            let undo_states = self.history.undo_states@;
            assert forall|i: int| 0 <= i < undo_commands.len() implies inverse_pair(
                #[trigger] undo_states[i],
                undo_commands[i].operation,
                if i + 1 < undo_commands.len() {
                    undo_states[i + 1]
                } else {
                    self.history.base@
                },
            ) by {
                if i < old_history.undo@.len() {
                    assert(undo_commands[i] == old_history.undo@[i]);
                    assert(undo_states[i] == old_history.undo_states@[i]);
                }
            }
            let redo_commands = self.history.redo@;
            let redo_states = self.history.redo_states@;
            assert forall|j: int| 0 <= j < redo_commands.len() implies inverse_pair(
                if j + 1 < redo_commands.len() {
                    redo_states[j + 1]
                } else {
                    self.history.base@
                },
                redo_commands[j].operation,
                #[trigger] redo_states[j],
            ) by {
                assert(redo_commands[j] == old_history.redo@[j]);
                assert(redo_states[j] == old_history.redo_states@[j]);
            }
        }
        Ok(true)
    }
}

/// When no operation of a list is empty, keeping its non-empty operations keeps them all.
proof fn lemma_all_non_empty(operations: Seq<EditOperation>)
    requires
        forall|k: int| 0 <= k < operations.len() ==> !operation_is_empty(#[trigger] operations[k]),
    ensures
        non_empty_operations(operations) == operations,
    decreases operations.len(),
{
    reveal(Seq::filter);
    if operations.len() > 0 {
        lemma_all_non_empty(operations.drop_last());
        assert(operations.drop_last().push(operations.last()) =~= operations);
    }
    assert(non_empty_operations(operations) =~= operations);
}

/// The message of a failure to read a CSV file.
pub open spec fn csv_io_text(error: CsvIoError) -> Seq<char> {
    match error {
        CsvIoError::Encoding(DecodeError::UnsupportedEncoding(name)) =>
            "encoding error: unsupported text encoding detected: "@ + name@,
        CsvIoError::Encoding(DecodeError::InvalidShiftJis) =>
            "encoding error: input was detected as Shift_JIS but contains invalid byte sequences"@,
        CsvIoError::Csv(text) => "CSV error: "@ + text@,
    }
}

/// The message of a failure to read a CSV file.
fn csv_io_message(error: CsvIoError) -> (message: String)
    ensures
        message@ == csv_io_text(error),
{
    match error {
        CsvIoError::Encoding(DecodeError::UnsupportedEncoding(name)) => {
            let mut message = String::from_str("encoding error: unsupported text encoding detected: ");
            message.append(name.as_str());
            message
        },
        CsvIoError::Encoding(DecodeError::InvalidShiftJis) => String::from_str(
            "encoding error: input was detected as Shift_JIS but contains invalid byte sequences",
        ),
        CsvIoError::Csv(text) => {
            let mut message = String::from_str("CSV error: ");
            message.append(text.as_str());
            message
        },
    }
}

impl CsvDocument {
    /// Opens the CSV file at `path` from its bytes (UTF-8, or Shift_JIS converted to
    /// UTF-8), with no edits yet.
    pub fn open_bytes(path: String, bytes: &[u8]) -> (result: Result<Self, DocumentError>)
        requires
            bytes@.len() <= usize::MAX / 4,
        ensures
            match result {
                Ok(document) => {
                    &&& document.wf()
                    &&& decoded_text(bytes@) matches Some((text, encoding))
                    &&& csv_records(text) == Some(document@)
                    &&& document.spec_encoding() == encoding
                    &&& document.spec_path() == path@
                    &&& !document.spec_dirty()
                    &&& !document.spec_can_undo()
                    &&& !document.spec_can_redo()
                    &&& !document.spec_transaction_active()
                },
                Err(DocumentError::Open { path: name, .. }) => name@ == path@ && (decoded_text(bytes@) is None
                    || (decoded_text(bytes@) matches Some((text, _)) && csv_records(text) is None)),
                Err(_) => false,
            },
    {
        match read_csv(bytes) {
            Ok(loaded) => Ok(CsvDocument::from_table(path, loaded.encoding, loaded.rows)),
            Err(error) => {
                let message = csv_io_message(error);
                Err(DocumentError::Open { path, message })
            },
        }
    }

    /// The UTF-8 CSV bytes to write when saving to the document's own path; refused while
    /// a transaction is open.
    pub fn save_bytes(&self) -> (result: Result<Vec<u8>, DocumentError>)
        ensures
            match result {
                Ok(bytes) => !self.spec_transaction_active() && csv_output(self@) == Some(bytes@),
                Err(DocumentError::Transaction(message)) => self.spec_transaction_active() && message@
                    == busy_message("save"@),
                Err(DocumentError::Save { path, .. }) => !self.spec_transaction_active() && csv_output(
                    self@,
                ) is None && path@ == self.spec_path(),
                Err(_) => false,
            },
    {
        self.ensure_no_transaction("save")?;
        self.encoded(self.path.as_str())
    }

    /// The UTF-8 CSV bytes to write when saving to `path`, which becomes the document's
    /// path once they are written; refused while a transaction is open.
    pub fn save_as_bytes(&self, path: &str) -> (result: Result<Vec<u8>, DocumentError>)
        ensures
            match result {
                Ok(bytes) => !self.spec_transaction_active() && csv_output(self@) == Some(bytes@),
                Err(DocumentError::Transaction(message)) => self.spec_transaction_active() && message@
                    == busy_message("save_as"@),
                Err(DocumentError::Save { path: name, .. }) => !self.spec_transaction_active()
                    && csv_output(self@) is None && name@ == path@,
                Err(_) => false,
            },
    {
        self.ensure_no_transaction("save_as")?;
        self.encoded(path)
    }

    fn encoded(&self, path: &str) -> (result: Result<Vec<u8>, DocumentError>)
        ensures
            match result {
                Ok(bytes) => csv_output(self@) == Some(bytes@),
                Err(DocumentError::Save { path: name, .. }) => csv_output(self@) is None && name@
                    == path@,
                Err(_) => false,
            },
    {
        match write_csv_utf8(self.table.rows()) {
            Ok(bytes) => Ok(bytes),
            Err(error) => {
                let message = csv_io_message(error);
                Err(DocumentError::Save { path: String::from_str(path), message })
            },
        }
    }

    /// Records that the table was written to the document's path: the document is now
    /// clean and its encoding is UTF-8.
    pub fn mark_saved(&mut self)
        requires
            old(self).wf(),
        ensures
            final(self).spec_declarations() == old(self).spec_declarations(),
            final(self).wf(),
            final(self)@ == old(self)@,
            final(self).spec_path() == old(self).spec_path(),
            final(self).spec_encoding() == SourceEncoding::Utf8,
            final(self).spec_transaction_active() == old(self).spec_transaction_active(),
            !old(self).spec_transaction_active() ==> !final(self).spec_dirty(),
            final(self).spec_can_undo() == old(self).spec_can_undo(),
            final(self).spec_can_redo() == old(self).spec_can_redo(),
            final(self).spec_undo_target() == old(self).spec_undo_target(),
            final(self).spec_undo_position() == old(self).spec_undo_position(),
            final(self).spec_redo_target() == old(self).spec_redo_target(),
            final(self).spec_redo_position() == old(self).spec_redo_position(),
            final(self).spec_position() == old(self).spec_position(),
            final(self).spec_saved_position() == old(self).spec_position(),
            final(self).spec_transaction_base() == old(self).spec_transaction_base(),
    {
        self.source_encoding = SourceEncoding::Utf8;
        self.history.mark_saved();
    }

    /// Records that the table was written to `path`, which becomes the document's path.
    pub fn mark_saved_as(&mut self, path: String)
        requires
            old(self).wf(),
        ensures
            final(self).spec_declarations() == old(self).spec_declarations(),
            final(self).wf(),
            final(self)@ == old(self)@,
            final(self).spec_path() == path@,
            final(self).spec_encoding() == SourceEncoding::Utf8,
            final(self).spec_transaction_active() == old(self).spec_transaction_active(),
            !old(self).spec_transaction_active() ==> !final(self).spec_dirty(),
    {
        self.path = path;
        self.mark_saved();
    }
}

/// `after` stands at the same point of the same history as `before`: the same undo and
/// redo steps, the same saved point and the same open transaction, if any.
pub open spec fn same_steps(before: CsvDocument, after: CsvDocument) -> bool {
    &&& after.spec_undo_tables() == before.spec_undo_tables()
    &&& after.spec_redo_tables() == before.spec_redo_tables()
    &&& after.spec_can_undo() == before.spec_can_undo()
    &&& after.spec_can_redo() == before.spec_can_redo()
    &&& after.spec_undo_target() == before.spec_undo_target()
    &&& after.spec_undo_position() == before.spec_undo_position()
    &&& after.spec_redo_target() == before.spec_redo_target()
    &&& after.spec_redo_position() == before.spec_redo_position()
    &&& after.spec_position() == before.spec_position()
    &&& after.spec_saved_position() == before.spec_saved_position()
}

/// `after` records exactly the history of `before`: nothing was recorded, undone, redone,
/// opened or closed, and whether there are unsaved changes is the same.
pub open spec fn same_history(before: CsvDocument, after: CsvDocument) -> bool {
    &&& same_steps(before, after)
    &&& after.spec_dirty() == before.spec_dirty()
    &&& after.spec_transaction_active() == before.spec_transaction_active()
    &&& after.spec_transaction_base() == before.spec_transaction_base()
}

/// `after` is `before` with a change to its table kept in the open transaction: the undo
/// and redo steps and the table the transaction began from are untouched, and the
/// document has unsaved changes.
pub open spec fn transaction_edited(before: CsvDocument, after: CsvDocument) -> bool {
    &&& before.spec_transaction_active()
    &&& after.spec_transaction_active()
    &&& same_steps(before, after)
    &&& after.spec_transaction_base() == before.spec_transaction_base()
    &&& after.spec_transaction_changed()
    &&& after.spec_dirty()
}

/// `after` is `before` with a transaction opened on its table, at the same point of its
/// history and with the same unsaved state.
pub open spec fn began(before: CsvDocument, after: CsvDocument) -> bool {
    &&& !before.spec_transaction_active()
    &&& after.spec_transaction_active()
    &&& after@ == before@
    &&& after.spec_transaction_base() == before@
    &&& same_steps(before, after)
    &&& after.spec_dirty() == before.spec_dirty()
    &&& !after.spec_transaction_changed()
}

/// `after` is `before` with its open transaction committed: when the transaction changed
/// the table, one new undo step leads back to the table it began from, and nothing is left
/// to redo; otherwise the history is where it was.
pub open spec fn committed(before: CsvDocument, after: CsvDocument) -> bool {
    &&& before.spec_transaction_active()
    &&& !after.spec_transaction_active()
    &&& after@ == before@
    &&& after.spec_saved_position() == before.spec_saved_position()
    &&& before.spec_transaction_changed() ==> {
        &&& after.spec_can_undo()
        &&& after.spec_undo_target() == before.spec_transaction_base()
        &&& after.spec_undo_tables() == before.spec_undo_tables().push(before.spec_transaction_base())
        &&& after.spec_redo_tables().len() == 0
        &&& after.spec_undo_position() == before.spec_position()
        &&& !after.spec_can_redo()
        &&& before.spec_points_left() ==> after.spec_dirty()
    }
    &&& !before.spec_transaction_changed() ==> same_steps(before, after)
}

/// Beginning a transaction, making edits in it and committing them gives one undo step
/// back to the table as it was before the transaction.
pub proof fn lemma_begin_edit_commit(first: CsvDocument, second: CsvDocument, third: CsvDocument, fourth: CsvDocument)
    requires
        began(first, second),
        transaction_edited(second, third),
        committed(third, fourth),
    ensures
        fourth@ == third@,
        fourth.spec_can_undo(),
        fourth.spec_undo_target() == first@,
        fourth.spec_undo_position() == first.spec_position(),
        !fourth.spec_can_redo(),
{
}

/// `after` is `before` with its open transaction rolled back: the table the transaction
/// began from, at the same point of the history, and unsaved exactly when that point is
/// not the saved one.
pub open spec fn rolled_back(before: CsvDocument, after: CsvDocument) -> bool {
    &&& before.spec_transaction_active()
    &&& !after.spec_transaction_active()
    &&& after@ == before.spec_transaction_base()
    &&& same_steps(before, after)
    &&& after.spec_dirty() == (after.spec_position() != after.spec_saved_position())
}

/// Beginning a transaction, making edits in it and rolling it back gives back the table,
/// the undo and redo steps and whether the document has unsaved changes.
pub proof fn lemma_begin_edit_rollback(first: CsvDocument, second: CsvDocument, third: CsvDocument, fourth: CsvDocument)
    requires
        began(first, second),
        third == second || transaction_edited(second, third) || same_history(second, third),
        rolled_back(third, fourth),
    ensures
        fourth@ == first@,
        same_steps(first, fourth),
        fourth.spec_dirty() == first.spec_dirty(),
{
    lemma_dirty_means_unsaved(first);
}

/// Edits kept one after the other in a transaction are, together, an edit kept in it.
pub proof fn lemma_transaction_edits_compose(first: CsvDocument, second: CsvDocument, third: CsvDocument)
    requires
        transaction_edited(first, second),
        transaction_edited(second, third),
    ensures
        transaction_edited(first, third),
{
}

/// `after` is `before` with a change to its table recorded as a new undo step, outside
/// any transaction: undoing it goes back to `before`'s table and point.
pub open spec fn edited(before: CsvDocument, after: CsvDocument) -> bool {
    &&& !before.spec_transaction_active()
    &&& !after.spec_transaction_active()
    &&& after.spec_can_undo()
    &&& after.spec_undo_target() == before@
    &&& after.spec_undo_tables() == before.spec_undo_tables().push(before@)
    &&& after.spec_redo_tables().len() == 0
    &&& after.spec_undo_position() == before.spec_position()
    &&& !after.spec_can_redo()
    &&& after.spec_saved_position() == before.spec_saved_position()
    &&& before.spec_points_left() ==> after.spec_dirty()
}

/// `after` is `before` with its latest undo step undone, which is now the first to redo;
/// the saved point does not move.
pub open spec fn undone(before: CsvDocument, after: CsvDocument) -> bool {
    &&& !before.spec_transaction_active()
    &&& !after.spec_transaction_active()
    &&& before.spec_can_undo()
    &&& after@ == before.spec_undo_target()
    &&& after.spec_position() == before.spec_undo_position()
    &&& after.spec_can_redo()
    &&& after.spec_redo_target() == before@
    &&& after.spec_undo_tables() == before.spec_undo_tables().drop_last()
    &&& after.spec_redo_tables() == before.spec_redo_tables().push(before@)
    &&& after.spec_redo_position() == before.spec_position()
    &&& after.spec_saved_position() == before.spec_saved_position()
}

/// `after` is `before` with its latest undone step redone, which is now the first to
/// undo; the saved point does not move.
pub open spec fn redone(before: CsvDocument, after: CsvDocument) -> bool {
    &&& !before.spec_transaction_active()
    &&& !after.spec_transaction_active()
    &&& before.spec_can_redo()
    &&& after@ == before.spec_redo_target()
    &&& after.spec_position() == before.spec_redo_position()
    &&& after.spec_can_undo()
    &&& after.spec_undo_target() == before@
    &&& after.spec_redo_tables() == before.spec_redo_tables().drop_last()
    &&& after.spec_undo_tables() == before.spec_undo_tables().push(before@)
    &&& after.spec_undo_position() == before.spec_position()
    &&& after.spec_saved_position() == before.spec_saved_position()
}

/// In a consistent document, there is something to undo exactly when an undo step holds
/// a table, and likewise for redo.
pub proof fn lemma_step_counts(document: CsvDocument)
    requires
        document.wf(),
    ensures
        document.spec_can_undo() == (document.spec_undo_tables().len() > 0),
        document.spec_can_redo() == (document.spec_redo_tables().len() > 0),
{
}

/// Beginning a transaction on a document with nothing to undo, making edits in it,
/// committing them and undoing once leaves the table as it was and nothing to undo.
pub proof fn lemma_commit_then_undo(
    first: CsvDocument,
    second: CsvDocument,
    third: CsvDocument,
    fourth: CsvDocument,
    fifth: CsvDocument,
)
    requires
        fifth.wf(),
        !first.spec_can_undo(),
        first.wf(),
        began(first, second),
        transaction_edited(second, third),
        committed(third, fourth),
        undone(fourth, fifth),
    ensures
        fifth@ == first@,
        !fifth.spec_can_undo(),
{
    lemma_step_counts(first);
    lemma_step_counts(fifth);
}

/// Outside a transaction, a document has unsaved changes exactly when it does not stand
/// at the point it was last saved at.
pub proof fn lemma_dirty_means_unsaved(document: CsvDocument)
    requires
        !document.spec_transaction_active(),
    ensures
        document.spec_dirty() == (document.spec_position() != document.spec_saved_position()),
{
}

/// Undoing a step and redoing it gives back the table, and whether the document has
/// unsaved changes.
pub proof fn lemma_undo_then_redo(first: CsvDocument, second: CsvDocument, third: CsvDocument)
    requires
        undone(first, second),
        redone(second, third),
    ensures
        third@ == first@,
        third.spec_dirty() == first.spec_dirty(),
{
    lemma_dirty_means_unsaved(first);
    lemma_dirty_means_unsaved(third);
}

/// Redoing a step and undoing it again gives back the table, and whether the document has
/// unsaved changes.
pub proof fn lemma_redo_then_undo(first: CsvDocument, second: CsvDocument, third: CsvDocument)
    requires
        redone(first, second),
        undone(second, third),
    ensures
        third@ == first@,
        third.spec_dirty() == first.spec_dirty(),
{
    lemma_dirty_means_unsaved(first);
    lemma_dirty_means_unsaved(third);
}

/// Undoing an edit gives back the table as it was, and whether the document had unsaved
/// changes.
pub proof fn lemma_edit_then_undo(first: CsvDocument, second: CsvDocument, third: CsvDocument)
    requires
        edited(first, second),
        undone(second, third),
    ensures
        third@ == first@,
        third.spec_dirty() == first.spec_dirty(),
{
    lemma_dirty_means_unsaved(first);
    lemma_dirty_means_unsaved(third);
}

/// What an operation refused during a transaction fails with.
pub open spec fn busy_message(operation: Seq<char>) -> Seq<char> {
    "cannot "@ + operation + " while a transaction is active"@
}

/// `a` and `b` hold the same table, edit history, path and encoding.
pub open spec fn same_edits(a: CsvDocument, b: CsvDocument) -> bool {
    &&& a.wf() == b.wf()
    &&& a@ == b@
    &&& a.spec_dirty() == b.spec_dirty()
    &&& a.spec_can_undo() == b.spec_can_undo()
    &&& a.spec_can_redo() == b.spec_can_redo()
    &&& a.spec_undo_target() == b.spec_undo_target()
    &&& a.spec_redo_target() == b.spec_redo_target()
    &&& a.spec_transaction_active() == b.spec_transaction_active()
    &&& a.spec_transaction_base() == b.spec_transaction_base()
    &&& a.spec_path() == b.spec_path()
    &&& a.spec_encoding() == b.spec_encoding()
}

/// `error` is what looking up the one column headed `header` in `rows` fails with.
pub open spec fn header_lookup_error(rows: Rows, header: Seq<char>, error: ColumnError) -> bool {
    let found = header_columns(rows, header, max_width(rows) as int);
    match error {
        ColumnError::HeaderNotFound(name) => found.len() == 0 && name@ == header,
        ColumnError::AmbiguousHeader { header: name, columns } => found.len() > 1 && name@ == header
            && columns@ == found,
        ColumnError::ColumnOutOfBounds { .. } => false,
    }
}

/// Exactly one column is headed `header`.
pub open spec fn unique_header(rows: Rows, header: Seq<char>) -> bool {
    header_columns(rows, header, max_width(rows) as int).len() == 1
}

/// What a sidecar gives: its declarations in member order (none when there is no
/// sidecar), or the message of why it cannot be used.
pub open spec fn sidecar_outcome(sidecar: Option<Result<JsonValue, MetadataError>>) -> Result<
    Seq<(Seq<char>, ColumnType)>,
    Seq<char>,
> {
    match sidecar {
        None => Ok(seq![]),
        Some(Ok(value)) => match metadata_load(value) {
            Ok(list) => Ok(list),
            Err(message) => Err("invalid Rowly metadata schema: "@ + message),
        },
        Some(Err(error)) => Err(metadata_message(error)),
    }
}

impl CsvDocument {
    /// The sidecar that holds this document's column declarations.
    pub fn metadata_path(&self) -> (path: String)
        ensures
            path@ == self.spec_path() + ".rowly.json"@,
    {
        sidecar_path(self.path.as_str())
    }

    /// Why the sidecar's declarations could not be used, if they could not.
    pub fn metadata_error(&self) -> (error: Option<&str>)
        ensures
            match error {
                Some(message) => self.spec_metadata_error() == Some(message@),
                None => self.spec_metadata_error() is None,
            },
    {
        match &self.metadata_error {
            Some(message) => Some(message.as_str()),
            None => None,
        }
    }

    /// Replaces the declarations by those of the sidecar (`None`: there is none;
    /// `Some(Err(..))`: it could not be read or parsed). A sidecar that cannot be used
    /// leaves no declarations and its message in `metadata_error`; the table is untouched.
    pub fn load_metadata(&mut self, sidecar: Option<Result<JsonValue, MetadataError>>)
        requires
            old(self).wf(),
        ensures
            final(self).wf(),
            same_edits(*final(self), *old(self)),
            strictly_ordered(final(self).spec_declarations()),
            match sidecar_outcome(sidecar) {
                Ok(list) => {
                    &&& final(self).spec_metadata_error() is None
                    &&& forall|h: Seq<char>| #[trigger]
                        declared_type(final(self).spec_declarations(), h) == last_declared(list, h)
                },
                Err(message) => {
                    &&& final(self).spec_metadata_error() == Some(message)
                    &&& final(self).spec_declarations() == Seq::<(Seq<char>, ColumnType)>::empty()
                },
            },
    {
        match sidecar {
            None => {
                self.metadata = ColumnMetadata::new();
                self.metadata_error = None;
            },
            Some(Ok(value)) => match ColumnMetadata::from_json(&value) {
                Ok(metadata) => {
                    self.metadata = metadata;
                    self.metadata_error = None;
                },
                Err(error) => {
                    self.metadata = ColumnMetadata::new();
                    self.metadata_error = Some(error.to_string());
                },
            },
            Some(Err(error)) => {
                self.metadata = ColumnMetadata::new();
                self.metadata_error = Some(error.to_string());
            },
        }
    }

    /// Declares `column_type` for the column headed `header`, which must head exactly
    /// one column; clears any sidecar error. The table and its history are untouched.
    pub fn set_column_type_declaration_by_header(
        &mut self,
        header: &str,
        column_type: ColumnType,
    ) -> (result: Result<(), DocumentError>)
        requires
            old(self).wf(),
        ensures
            final(self).wf(),
            same_edits(*final(self), *old(self)),
            strictly_ordered(final(self).spec_declarations()),
            match result {
                Ok(()) => {
                    &&& unique_header(old(self)@, header@)
                    &&& final(self).spec_metadata_error() is None
                    &&& forall|h: Seq<char>| #[trigger]
                        declared_type(final(self).spec_declarations(), h) == if h == header@ {
                            Some(column_type)
                        } else {
                            declared_type(old(self).spec_declarations(), h)
                        }
                },
                Err(DocumentError::Column(error)) => {
                    &&& header_lookup_error(old(self)@, header@, error)
                    &&& final(self).spec_declarations() == old(self).spec_declarations()
                    &&& final(self).spec_metadata_error() == old(self).spec_metadata_error()
                },
                Err(_) => false,
            },
    {
        match self.column_index_by_header(header) {
            Ok(_) => {},
            Err(error) => {
                return Err(DocumentError::Column(error));
            },
        }
        self.metadata.set(header.to_owned(), column_type);
        self.metadata_error = None;
        Ok(())
    }

    /// Removes the declaration for the column headed `header` (which must head exactly
    /// one column); whether there was one.
    pub fn remove_column_type_declaration_by_header(&mut self, header: &str) -> (result: Result<
        bool,
        DocumentError,
    >)
        requires
            old(self).wf(),
        ensures
            final(self).wf(),
            same_edits(*final(self), *old(self)),
            strictly_ordered(final(self).spec_declarations()),
            final(self).spec_metadata_error() == old(self).spec_metadata_error(),
            match result {
                Ok(removed) => {
                    &&& unique_header(old(self)@, header@)
                    &&& removed == (declared_type(old(self).spec_declarations(), header@) is Some)
                    &&& forall|h: Seq<char>| #[trigger]
                        declared_type(final(self).spec_declarations(), h) == if h == header@ {
                            None
                        } else {
                            declared_type(old(self).spec_declarations(), h)
                        }
                },
                Err(DocumentError::Column(error)) => {
                    &&& header_lookup_error(old(self)@, header@, error)
                    &&& final(self).spec_declarations() == old(self).spec_declarations()
                },
                Err(_) => false,
            },
    {
        match self.column_index_by_header(header) {
            Ok(_) => {},
            Err(error) => {
                return Err(DocumentError::Column(error));
            },
        }
        Ok(self.metadata.remove(header))
    }

    /// The type declared for the column headed `header` (which must head exactly one
    /// column).
    pub fn column_type_declaration_by_header(&self, header: &str) -> (result: Result<
        Option<ColumnType>,
        DocumentError,
    >)
        requires
            self.wf(),
        ensures
            match result {
                Ok(column_type) => unique_header(self@, header@) && column_type == declared_type(
                    self.spec_declarations(),
                    header@,
                ),
                Err(DocumentError::Column(error)) => header_lookup_error(self@, header@, error),
                Err(_) => false,
            },
    {
        match self.column_index_by_header(header) {
            Ok(_) => {},
            Err(error) => {
                return Err(DocumentError::Column(error));
            },
        }
        Ok(self.metadata.get(header))
    }

    /// Every declaration, in header order.
    pub fn column_type_declarations(&self) -> (declarations: &[(String, ColumnType)])
        ensures
            declarations@.map_values(|entry: (String, ColumnType)| (entry.0@, entry.1))
                == self.spec_declarations(),
    {
        let declarations = self.metadata.declarations();
        assert(declarations@.map_values(|entry: (String, ColumnType)| (entry.0@, entry.1))
            =~= self.spec_declarations());
        declarations
    }

    /// The sidecar document to write for the current declarations.
    pub fn metadata_json(&self) -> (value: JsonValue)
        ensures
            metadata_json_shape(value, self.spec_declarations()),
    {
        self.metadata.to_json()
    }

    /// Removes every column type declaration.
    pub fn clear_column_type_declarations(&mut self)
        requires
            old(self).wf(),
        ensures
            final(self).wf(),
            same_edits(*final(self), *old(self)),
            final(self).spec_declarations() == Seq::<(Seq<char>, ColumnType)>::empty(),
            final(self).spec_metadata_error() == old(self).spec_metadata_error(),
    {
        self.metadata = ColumnMetadata::new();
    }

    /// Records that the sidecar was written: any earlier sidecar error is cleared.
    pub fn mark_metadata_saved(&mut self)
        requires
            old(self).wf(),
        ensures
            final(self).wf(),
            same_edits(*final(self), *old(self)),
            final(self).spec_declarations() == old(self).spec_declarations(),
            final(self).spec_metadata_error() is None,
    {
        self.metadata_error = None;
    }
}

} // verus!
