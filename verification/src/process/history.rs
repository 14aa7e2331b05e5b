use vstd::prelude::*;

use crate::data::table::splice;
use crate::process::address::CellRef;

verus! {

/// Table contents as seen by specifications: rows of cells of characters.
pub type Rows = Seq<Seq<Seq<char>>>;

#[derive(Debug)]
pub struct CellChange {
    pub reference: CellRef,
    pub before: String,
    pub after: String,
}

#[derive(Debug)]
pub struct RowEdit {
    pub index: usize,
    pub removed: Vec<Vec<String>>,
    pub inserted: Vec<Vec<String>>,
}

#[derive(Debug)]
pub struct ColumnChange {
    pub row: usize,
    pub index: usize,
    pub removed: Vec<String>,
    pub inserted: Vec<String>,
}

/// One recorded edit. `Batch` groups the edits of a committed transaction.
#[derive(Debug)]
pub enum EditOperation {
    Cells(Vec<CellChange>),
    Rows(RowEdit),
    Columns(Vec<ColumnChange>),
    Batch(Vec<EditOperation>),
}

/// Which way a recorded edit is replayed.
#[derive(Debug, Clone, Copy, PartialEq, Eq, Structural)]
pub enum CommandDirection {
    Undo,
    Redo,
}

/// Setting one cell, which must exist.
pub open spec fn set_cell_rows(t: Rows, row: int, column: int, value: Seq<char>) -> Option<Rows> {
    if 0 <= row < t.len() && 0 <= column < t[row].len() {
        Some(t.update(row, t[row].update(column, value)))
    } else {
        None
    }
}

/// Replaying cell changes in order, writing `before` (undo) or `after` (redo).
pub open spec fn apply_cells(t: Rows, changes: Seq<CellChange>, direction: CommandDirection) -> Option<
    Rows,
>
    decreases changes.len(),
{
    if changes.len() == 0 {
        Some(t)
    } else {
        match apply_cells(t, changes.drop_last(), direction) {
            Some(t1) => {
                let change = changes.last();
                set_cell_rows(
                    t1,
                    change.reference.row as int,
                    change.reference.column as int,
                    if direction == CommandDirection::Undo {
                        change.before@
                    } else {
                        change.after@
                    },
                )
            },
            None => None,
        }
    }
}

/// Replaying a row edit: the rows expected at `index` are replaced by the others.
pub open spec fn apply_rows(t: Rows, edit: RowEdit, direction: CommandDirection) -> Option<Rows> {
    let expected = if direction == CommandDirection::Undo {
        edit.inserted.deep_view()
    } else {
        edit.removed.deep_view()
    };
    let replacement = if direction == CommandDirection::Undo {
        edit.removed.deep_view()
    } else {
        edit.inserted.deep_view()
    };
    if edit.index + expected.len() <= t.len() && t.subrange(
        edit.index as int,
        edit.index + expected.len(),
    ) == expected {
        Some(splice(t, edit.index as int, expected.len() as int, replacement))
    } else {
        None
    }
}

pub open spec fn column_expected(change: ColumnChange, direction: CommandDirection) -> Seq<Seq<char>> {
    if direction == CommandDirection::Undo {
        change.inserted.deep_view()
    } else {
        change.removed.deep_view()
    }
}

pub open spec fn column_replacement(change: ColumnChange, direction: CommandDirection) -> Seq<
    Seq<char>,
> {
    if direction == CommandDirection::Undo {
        change.removed.deep_view()
    } else {
        change.inserted.deep_view()
    }
}

/// The table holds the cells that a column change expects to find.
pub open spec fn column_matches(t: Rows, change: ColumnChange, direction: CommandDirection) -> bool {
    let expected = column_expected(change, direction);
    &&& change.row < t.len()
    &&& change.index + expected.len() <= t[change.row as int].len()
    &&& t[change.row as int].subrange(change.index as int, change.index + expected.len())
        == expected
}

/// Replacing the expected segments of the changes, one after another.
pub open spec fn apply_column_segments(
    t: Rows,
    changes: Seq<ColumnChange>,
    direction: CommandDirection,
) -> Option<Rows>
    decreases changes.len(),
{
    if changes.len() == 0 {
        Some(t)
    } else {
        match apply_column_segments(t, changes.drop_last(), direction) {
            Some(t1) => {
                let change = changes.last();
                let expected = column_expected(change, direction);
                if change.row < t1.len() && change.index + expected.len() <= t1[change.row as int].len() {
                    Some(
                        t1.update(
                            change.row as int,
                            splice(
                                t1[change.row as int],
                                change.index as int,
                                expected.len() as int,
                                column_replacement(change, direction),
                            ),
                        ),
                    )
                } else {
                    None
                }
            },
            None => None,
        }
    }
}

/// Replaying column changes: every expected segment is checked first, then all are replaced.
pub open spec fn apply_columns(t: Rows, changes: Seq<ColumnChange>, direction: CommandDirection) -> Option<
    Rows,
> {
    if forall|i: int| 0 <= i < changes.len() ==> column_matches(t, #[trigger] changes[i], direction) {
        apply_column_segments(t, changes, direction)
    } else {
        None
    }
}

/// Replaying a recorded operation; `None` when the table no longer matches it.
pub open spec fn apply_operation(t: Rows, operation: EditOperation, direction: CommandDirection) -> Option<
    Rows,
>
    decreases operation, 0nat,
{
    match operation {
        EditOperation::Cells(changes) => apply_cells(t, changes@, direction),
        EditOperation::Rows(edit) => apply_rows(t, edit, direction),
        EditOperation::Columns(changes) => apply_columns(t, changes@, direction),
        EditOperation::Batch(operations) => if direction == CommandDirection::Undo {
            apply_batch_undo(t, operations@)
        } else {
            apply_batch_redo(t, operations@)
        },
    }
}

/// Undoing a batch: its operations in reverse order.
pub open spec fn apply_batch_undo(t: Rows, operations: Seq<EditOperation>) -> Option<Rows>
    decreases operations, operations.len(),
{
    if operations.len() == 0 {
        Some(t)
    } else {
        match apply_operation(t, operations.last(), CommandDirection::Undo) {
            Some(t1) => apply_batch_undo(t1, operations.drop_last()),
            None => None,
        }
    }
}

/// Redoing a batch: its operations in order.
pub open spec fn apply_batch_redo(t: Rows, operations: Seq<EditOperation>) -> Option<Rows>
    decreases operations, operations.len(),
{
    if operations.len() == 0 {
        Some(t)
    } else {
        match apply_batch_redo(t, operations.drop_last()) {
            Some(t1) => apply_operation(t1, operations.last(), CommandDirection::Redo),
            None => None,
        }
    }
}

} // verus!

verus! {

/// An operation that changes nothing.
pub open spec fn operation_is_empty(operation: EditOperation) -> bool
    decreases operation,
{
    match operation {
        EditOperation::Cells(changes) => changes@.len() == 0,
        EditOperation::Rows(edit) => edit.removed@.len() == 0 && edit.inserted@.len() == 0,
        EditOperation::Columns(changes) => changes@.len() == 0,
        EditOperation::Batch(operations) => forall|i: int|
            0 <= i < operations@.len() ==> operation_is_empty(#[trigger] operations@[i]),
    }
}

impl EditOperation {
    #[verifier::loop_isolation(false)]
    pub fn is_empty(&self) -> (empty: bool)
        ensures
            empty == operation_is_empty(*self),
        decreases self,
    {
        match self {
            EditOperation::Cells(changes) => changes.len() == 0,
            EditOperation::Rows(edit) => edit.removed.len() == 0 && edit.inserted.len() == 0,
            EditOperation::Columns(changes) => changes.len() == 0,
            EditOperation::Batch(operations) => {
                let mut index: usize = 0;
                while index < operations.len()
                    invariant
                        index <= operations@.len(),
                        forall|i: int| 0 <= i < index ==> operation_is_empty(#[trigger] operations@[i]),
                    decreases operations@.len() - index,
                {
                    assert(decreases_to!(self => operations));
                    assert(decreases_to!(operations => operations@));
                    assert(decreases_to!(operations@ => operations@[index as int]));
                    if !operations[index].is_empty() {
                        return false;
                    }
                    index += 1;
                }
                true
            },
        }
    }
}

/// A committed, undoable operation with the saved-state identities around it.
#[derive(Debug)]
pub struct EditCommand {
    pub operation: EditOperation,
    pub before_state_id: u64,
    pub after_state_id: u64,
}

/// Undo and redo stacks, saved-state tracking and the open transaction, if any.
pub struct EditHistory {
    pub undo: Vec<EditCommand>,
    pub redo: Vec<EditCommand>,
    pub current_state_id: u64,
    pub saved_state_id: u64,
    pub next_state_id: u64,
    pub transaction: Option<Vec<EditOperation>>,
    /// For each undo step, the table it was applied to.
    pub undo_states: Ghost<Seq<Rows>>,
    /// For each redo step, the table that re-applying it gives.
    pub redo_states: Ghost<Seq<Rows>>,
    /// For each operation of the open transaction, the table it was applied to.
    pub transaction_states: Ghost<Seq<Rows>>,
    /// The table as of the last committed point: where the open transaction began, or
    /// the current table when none is open.
    pub base: Ghost<Rows>,
}

/// Each undo step leads to the point the next one starts from, the last to the current
/// point; each redo step starts from the point the next one leads to, the last from the
/// current point.
pub open spec fn points_chained(history: EditHistory) -> bool {
    let undo = history.undo@;
    let redo = history.redo@;
    &&& undo.len() > 0 ==> undo.last().after_state_id == history.current_state_id
    &&& forall|i: int| 0 <= i < undo.len() - 1 ==> (#[trigger] undo[i]).after_state_id == undo[i + 1].before_state_id
    &&& redo.len() > 0 ==> redo.last().before_state_id == history.current_state_id
    &&& forall|i: int| 0 <= i < redo.len() - 1 ==> (#[trigger] redo[i]).before_state_id == redo[i + 1].after_state_id
    &&& history.current_state_id <= history.next_state_id
    &&& history.saved_state_id <= history.next_state_id
    &&& forall|i: int|
        0 <= i < undo.len() ==> (#[trigger] undo[i]).before_state_id <= history.next_state_id
            && undo[i].after_state_id <= history.next_state_id
    &&& forall|i: int|
        0 <= i < redo.len() ==> (#[trigger] redo[i]).before_state_id <= history.next_state_id
            && redo[i].after_state_id <= history.next_state_id
}

/// Two histories hold the same model of past tables.
pub open spec fn same_model(a: EditHistory, b: EditHistory) -> bool {
    &&& a.undo_states == b.undo_states
    &&& a.redo_states == b.redo_states
    &&& a.transaction_states == b.transaction_states
    &&& a.base == b.base
}

/// The open transaction holds a non-empty operation.
pub open spec fn transaction_has_changes(history: EditHistory) -> bool {
    match history.transaction {
        Some(operations) => exists|i: int|
            0 <= i < operations@.len() && !operation_is_empty(#[trigger] operations@[i]),
        None => false,
    }
}

pub open spec fn history_dirty(history: EditHistory) -> bool {
    history.current_state_id != history.saved_state_id || transaction_has_changes(history)
}

impl EditHistory {
    pub fn new() -> (history: Self)
        ensures
            history.undo@.len() == 0,
            history.redo@.len() == 0,
            history.current_state_id == 0,
            history.saved_state_id == 0,
            history.next_state_id == 0,
            history.transaction is None,
            history.undo_states@.len() == 0,
            history.redo_states@.len() == 0,
            history.transaction_states@.len() == 0,
    {
        EditHistory {
            undo: Vec::new(),
            redo: Vec::new(),
            current_state_id: 0,
            saved_state_id: 0,
            next_state_id: 0,
            transaction: None,
            undo_states: Ghost(Seq::empty()),
            redo_states: Ghost(Seq::empty()),
            transaction_states: Ghost(Seq::empty()),
            base: Ghost(Seq::empty()),
        }
    }

    #[verifier::loop_isolation(false)]
    pub fn is_dirty(&self) -> (dirty: bool)
        ensures
            dirty == history_dirty(*self),
    {
        if self.current_state_id != self.saved_state_id {
            return true;
        }
        match &self.transaction {
            Some(operations) => {
                let mut index: usize = 0;
                while index < operations.len()
                    invariant
                        index <= operations@.len(),
                        forall|i: int| 0 <= i < index ==> operation_is_empty(#[trigger] operations@[i]),
                    decreases operations@.len() - index,
                {
                    if !operations[index].is_empty() {
                        return true;
                    }
                    index += 1;
                }
                false
            },
            None => false,
        }
    }

    pub fn can_undo(&self) -> (can: bool)
        ensures
            can == (self.undo@.len() > 0),
    {
        self.undo.len() > 0
    }

    pub fn can_redo(&self) -> (can: bool)
        ensures
            can == (self.redo@.len() > 0),
    {
        self.redo.len() > 0
    }

    pub fn transaction_active(&self) -> (active: bool)
        ensures
            active == (self.transaction is Some),
    {
        self.transaction.is_some()
    }

    /// Pushes a committed operation as a new undo step and discards the redo branch.
    pub fn record_committed(&mut self, operation: EditOperation)
        requires
            points_chained(*old(self)),
        ensures
            points_chained(*final(self)),
            same_model(*old(self), *final(self)),
            final(self).undo@.len() == old(self).undo@.len() + 1,
            final(self).undo@.subrange(0, old(self).undo@.len() as int) == old(self).undo@,
            final(self).undo@.last().operation == operation,
            final(self).undo@.last().before_state_id == old(self).current_state_id,
            final(self).undo@.last().after_state_id == final(self).current_state_id,
            final(self).redo@.len() == 0,
            final(self).saved_state_id == old(self).saved_state_id,
            final(self).transaction == old(self).transaction,
            final(self).next_state_id == final(self).current_state_id,
            old(self).next_state_id < u64::MAX ==> final(self).current_state_id == old(self).next_state_id + 1,
            old(self).next_state_id == u64::MAX ==> final(self).current_state_id == u64::MAX,
    {
        self.next_state_id = self.next_state_id.saturating_add(1);
        let command = EditCommand {
            operation,
            before_state_id: self.current_state_id,
            after_state_id: self.next_state_id,
        };
        self.current_state_id = self.next_state_id;
        self.undo.push(command);
        self.redo.clear();
        assert(self.undo@.subrange(0, old(self).undo@.len() as int) =~= old(self).undo@);
        proof {
            let undo = self.undo@;
            let n = old(self).undo@.len() as int;
            assert forall|i: int| 0 <= i < undo.len() - 1 implies (#[trigger] undo[i]).after_state_id
                == undo[i + 1].before_state_id by {
                assert(undo[i] == old(self).undo@[i]);
                if i + 1 < n {
                    assert(undo[i + 1] == old(self).undo@[i + 1]);
                }
            }
            assert forall|i: int| 0 <= i < undo.len() implies (#[trigger] undo[i]).before_state_id
                <= self.next_state_id && undo[i].after_state_id <= self.next_state_id by {
                if i < n {
                    assert(undo[i] == old(self).undo@[i]);
                }
            }
        }
    }

    /// Records an edit: ignored when empty, kept in the open transaction, or committed.
    pub fn record(&mut self, operation: EditOperation)
        requires
            points_chained(*old(self)),
        ensures
            points_chained(*final(self)),
            same_model(*old(self), *final(self)),
            operation_is_empty(operation) ==> *final(self) == *old(self),
            !operation_is_empty(operation) && old(self).transaction is Some ==> {
                &&& final(self).transaction is Some
                &&& final(self).transaction.unwrap()@ == old(self).transaction.unwrap()@.push(
                    operation,
                )
                &&& final(self).undo == old(self).undo
                &&& final(self).redo == old(self).redo
                &&& final(self).current_state_id == old(self).current_state_id
                &&& final(self).saved_state_id == old(self).saved_state_id
                &&& final(self).next_state_id == old(self).next_state_id
            },
            !operation_is_empty(operation) && old(self).transaction is None ==> {
                &&& final(self).undo@.len() == old(self).undo@.len() + 1
                &&& final(self).undo@.subrange(0, old(self).undo@.len() as int) == old(self).undo@
                &&& final(self).undo@.last().operation == operation
                &&& final(self).undo@.last().before_state_id == old(self).current_state_id
                &&& final(self).undo@.last().after_state_id == final(self).current_state_id
                &&& final(self).redo@.len() == 0
                &&& final(self).saved_state_id == old(self).saved_state_id
                &&& final(self).transaction is None
                &&& final(self).next_state_id == final(self).current_state_id
                &&& old(self).next_state_id < u64::MAX ==> final(self).current_state_id
                    == old(self).next_state_id + 1
                &&& old(self).next_state_id == u64::MAX ==> final(self).current_state_id
                    == u64::MAX
            },
    {
        if operation.is_empty() {
            return;
        }
        match &mut self.transaction {
            Some(operations) => {
                operations.push(operation);
            },
            None => {
                self.record_committed(operation);
            },
        }
    }
}

/// The non-empty operations of `operations`, in order.
pub open spec fn non_empty_operations(operations: Seq<EditOperation>) -> Seq<EditOperation> {
    operations.filter(|operation: EditOperation| !operation_is_empty(operation))
}

impl EditHistory {
    pub fn begin_transaction(&mut self) -> (began: bool)
        ensures
            same_model(*old(self), *final(self)),
            began == (old(self).transaction is None),
            began ==> final(self).transaction is Some && final(self).transaction.unwrap()@.len() == 0,
            !began ==> *final(self) == *old(self),
            final(self).undo == old(self).undo,
            final(self).redo == old(self).redo,
            final(self).current_state_id == old(self).current_state_id,
            final(self).saved_state_id == old(self).saved_state_id,
            final(self).next_state_id == old(self).next_state_id,
    {
        if self.transaction.is_some() {
            return false;
        }
        self.transaction = Some(Vec::new());
        true
    }

    /// Closes the open transaction, committing its non-empty operations as one batch.
    pub fn commit_transaction(&mut self) -> (committed: bool)
        requires
            points_chained(*old(self)),
        ensures
            points_chained(*final(self)),
            same_model(*old(self), *final(self)),
            committed == (old(self).transaction is Some),
            !committed ==> *final(self) == *old(self),
            final(self).transaction is None,
            committed && non_empty_operations(old(self).transaction.unwrap()@).len() == 0 ==> {
                &&& final(self).undo == old(self).undo
                &&& final(self).redo == old(self).redo
                &&& final(self).current_state_id == old(self).current_state_id
                &&& final(self).saved_state_id == old(self).saved_state_id
                &&& final(self).next_state_id == old(self).next_state_id
            },
            committed && non_empty_operations(old(self).transaction.unwrap()@).len() > 0 ==> {
                &&& final(self).undo@.len() == old(self).undo@.len() + 1
                &&& final(self).undo@.subrange(0, old(self).undo@.len() as int) == old(self).undo@
                &&& final(self).undo@.last().operation matches EditOperation::Batch(batch)
                    && batch@ == non_empty_operations(old(self).transaction.unwrap()@)
                &&& final(self).undo@.last().before_state_id == old(self).current_state_id
                &&& final(self).undo@.last().after_state_id == final(self).current_state_id
                &&& final(self).redo@.len() == 0
                &&& final(self).saved_state_id == old(self).saved_state_id
                &&& final(self).next_state_id == final(self).current_state_id
                &&& old(self).next_state_id < u64::MAX ==> final(self).current_state_id
                    == old(self).next_state_id + 1
                &&& old(self).next_state_id == u64::MAX ==> final(self).current_state_id
                    == u64::MAX
            },
    {
        let taken = self.transaction.take();
        let mut operations = match taken {
            Some(operations) => operations,
            None => {
                return false;
            },
        };
        let ghost all = operations@;
        let mut kept: Vec<EditOperation> = Vec::new();
        let mut rest = operations.split_off(0);
        proof {
            assert(rest@ == all);
        }
        let mut index: usize = 0;
        let count = rest.len();
        let mut reversed: Vec<EditOperation> = Vec::new();
        while rest.len() > 0
            invariant
                rest@ == all.subrange(0, rest@.len() as int),
                reversed@.len() + rest@.len() == all.len(),
                forall|i: int| 0 <= i < reversed@.len() ==> #[trigger] reversed@[i] == all[all.len() - 1 - i],
            decreases rest@.len(),
        {
            let operation = rest.pop().unwrap();
            reversed.push(operation);
        }
        proof {
            assert(all.filter(|operation: EditOperation| !operation_is_empty(operation)).len() >= 0);
        }
        while reversed.len() > 0
            invariant
                reversed@.len() <= all.len(),
                forall|i: int| 0 <= i < reversed@.len() ==> #[trigger] reversed@[i] == all[all.len() - 1 - i],
                kept@ == non_empty_operations(all.subrange(0, all.len() - reversed@.len())),
            decreases reversed@.len(),
        {
            let ghost k = all.len() - reversed@.len();
            let operation = reversed.pop().unwrap();
            assert(operation == all[k]);
            assert(all.subrange(0, k + 1).drop_last() =~= all.subrange(0, k));
            reveal(Seq::filter);
            if !operation.is_empty() {
                kept.push(operation);
            }
        }
        assert(all.subrange(0, all.len() as int) =~= all);
        if kept.len() > 0 {
            self.record_committed(EditOperation::Batch(kept));
        }
        true
    }

    /// Removes the open transaction, handing back its operations.
    pub fn take_transaction(&mut self) -> (operations: Option<Vec<EditOperation>>)
        ensures
            same_model(*old(self), *final(self)),
            operations == old(self).transaction,
            final(self).transaction is None,
            final(self).undo == old(self).undo,
            final(self).redo == old(self).redo,
            final(self).current_state_id == old(self).current_state_id,
            final(self).saved_state_id == old(self).saved_state_id,
            final(self).next_state_id == old(self).next_state_id,
    {
        self.transaction.take()
    }

    pub fn restore_transaction(&mut self, operations: Vec<EditOperation>)
        ensures
            same_model(*old(self), *final(self)),
            final(self).transaction == Some(operations),
            final(self).undo == old(self).undo,
            final(self).redo == old(self).redo,
            final(self).current_state_id == old(self).current_state_id,
            final(self).saved_state_id == old(self).saved_state_id,
            final(self).next_state_id == old(self).next_state_id,
    {
        self.transaction = Some(operations);
    }

    pub fn take_undo(&mut self) -> (command: Option<EditCommand>)
        ensures
            same_model(*old(self), *final(self)),
            old(self).undo@.len() == 0 ==> command is None && final(self).undo@ == old(self).undo@,
            old(self).undo@.len() > 0 ==> command == Some(old(self).undo@.last())
                && final(self).undo@ == old(self).undo@.drop_last(),
            final(self).redo == old(self).redo,
            final(self).transaction == old(self).transaction,
            final(self).current_state_id == old(self).current_state_id,
            final(self).saved_state_id == old(self).saved_state_id,
            final(self).next_state_id == old(self).next_state_id,
    {
        self.undo.pop()
    }

    pub fn commit_undo(&mut self, command: EditCommand)
        ensures
            same_model(*old(self), *final(self)),
            final(self).current_state_id == command.before_state_id,
            final(self).redo@ == old(self).redo@.push(command),
            final(self).undo == old(self).undo,
            final(self).transaction == old(self).transaction,
            final(self).saved_state_id == old(self).saved_state_id,
            final(self).next_state_id == old(self).next_state_id,
    {
        self.current_state_id = command.before_state_id;
        self.redo.push(command);
    }

    pub fn restore_undo(&mut self, command: EditCommand)
        ensures
            same_model(*old(self), *final(self)),
            final(self).undo@ == old(self).undo@.push(command),
            final(self).redo == old(self).redo,
            final(self).transaction == old(self).transaction,
            final(self).current_state_id == old(self).current_state_id,
            final(self).saved_state_id == old(self).saved_state_id,
            final(self).next_state_id == old(self).next_state_id,
    {
        self.undo.push(command);
    }

    pub fn take_redo(&mut self) -> (command: Option<EditCommand>)
        ensures
            same_model(*old(self), *final(self)),
            old(self).redo@.len() == 0 ==> command is None && final(self).redo@ == old(self).redo@,
            old(self).redo@.len() > 0 ==> command == Some(old(self).redo@.last())
                && final(self).redo@ == old(self).redo@.drop_last(),
            final(self).undo == old(self).undo,
            final(self).transaction == old(self).transaction,
            final(self).current_state_id == old(self).current_state_id,
            final(self).saved_state_id == old(self).saved_state_id,
            final(self).next_state_id == old(self).next_state_id,
    {
        self.redo.pop()
    }

    pub fn commit_redo(&mut self, command: EditCommand)
        ensures
            same_model(*old(self), *final(self)),
            final(self).current_state_id == command.after_state_id,
            final(self).undo@ == old(self).undo@.push(command),
            final(self).redo == old(self).redo,
            final(self).transaction == old(self).transaction,
            final(self).saved_state_id == old(self).saved_state_id,
            final(self).next_state_id == old(self).next_state_id,
    {
        self.current_state_id = command.after_state_id;
        self.undo.push(command);
    }

    pub fn restore_redo(&mut self, command: EditCommand)
        ensures
            same_model(*old(self), *final(self)),
            final(self).redo@ == old(self).redo@.push(command),
            final(self).undo == old(self).undo,
            final(self).transaction == old(self).transaction,
            final(self).current_state_id == old(self).current_state_id,
            final(self).saved_state_id == old(self).saved_state_id,
            final(self).next_state_id == old(self).next_state_id,
    {
        self.redo.push(command);
    }

    pub fn mark_saved(&mut self)
        ensures
            same_model(*old(self), *final(self)),
            final(self).saved_state_id == old(self).current_state_id,
            final(self).current_state_id == old(self).current_state_id,
            final(self).undo == old(self).undo,
            final(self).redo == old(self).redo,
            final(self).transaction == old(self).transaction,
            final(self).next_state_id == old(self).next_state_id,
    {
        self.saved_state_id = self.current_state_id;
    }
}

} // verus!
