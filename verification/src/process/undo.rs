//! Why undo and redo give back the tables they promise: every recorded edit, replayed
//! backward from the table it produced, yields the table it started from, and replayed
//! forward from there yields the table it produced.

use vstd::prelude::*;

use crate::data::table::splice;
use crate::process::document::changed_at;
use crate::process::history::{
    apply_batch_redo, apply_batch_undo, apply_cells, apply_column_segments, apply_columns,
    apply_operation, apply_rows, column_expected, column_matches, column_replacement,
    set_cell_rows, CellChange, ColumnChange, CommandDirection, EditCommand, EditOperation, RowEdit,
    Rows,
};

verus! {

/// `operation` leads from `before` to `after`, and back.
pub open spec fn inverse_pair(before: Rows, operation: EditOperation, after: Rows) -> bool {
    &&& apply_operation(after, operation, CommandDirection::Undo) == Some(before)
    &&& apply_operation(before, operation, CommandDirection::Redo) == Some(after)
}

/// The undo stack: `states[i]` is the table from which `commands[i]` was applied; the
/// newest command led to `top`.
pub open spec fn undo_chain(states: Seq<Rows>, commands: Seq<EditCommand>, top: Rows) -> bool {
    &&& states.len() == commands.len()
    &&& forall|i: int|
        0 <= i < commands.len() ==> inverse_pair(
            #[trigger] states[i],
            commands[i].operation,
            if i + 1 < commands.len() {
                states[i + 1]
            } else {
                top
            },
        )
}

/// The redo stack: `states[j]` is the table that re-applying `commands[j]` gives; the
/// newest entry starts from `bottom`.
pub open spec fn redo_chain(states: Seq<Rows>, commands: Seq<EditCommand>, bottom: Rows) -> bool {
    &&& states.len() == commands.len()
    &&& forall|j: int|
        0 <= j < commands.len() ==> inverse_pair(
            if j + 1 < commands.len() {
                states[j + 1]
            } else {
                bottom
            },
            commands[j].operation,
            #[trigger] states[j],
        )
}

/// The open transaction: `states[k]` is the table from which `operations[k]` was
/// applied; the last one led to `current`.
pub open spec fn transaction_chain(states: Seq<Rows>, operations: Seq<EditOperation>, current: Rows) -> bool {
    &&& states.len() == operations.len()
    &&& forall|k: int|
        0 <= k < operations.len() ==> inverse_pair(
            #[trigger] states[k],
            operations[k],
            if k + 1 < operations.len() {
                states[k + 1]
            } else {
                current
            },
        )
}

/// Replaying a transaction's operations backward from `current` gives the table it began
/// from, and forward from there gives `current` again.
pub proof fn lemma_batch_inverse(states: Seq<Rows>, operations: Seq<EditOperation>, current: Rows)
    requires
        transaction_chain(states, operations, current),
        operations.len() > 0,
    ensures
        apply_batch_undo(current, operations) == Some(states[0]),
        apply_batch_redo(states[0], operations) == Some(current),
    decreases operations.len(),
{
    let n = operations.len();
    assert(inverse_pair(states[n - 1], operations[n - 1], current));
    if n == 1 {
        assert(operations.drop_last().len() == 0);
        assert(apply_batch_redo(states[0], operations.drop_last()) == Some(states[0]));
    } else {
        let shorter_states = states.drop_last();
        let shorter = operations.drop_last();
        assert forall|k: int| 0 <= k < shorter.len() implies inverse_pair(
            #[trigger] shorter_states[k],
            shorter[k],
            if k + 1 < shorter.len() {
                shorter_states[k + 1]
            } else {
                states[n - 1]
            },
        ) by {
            assert(inverse_pair(states[k], operations[k], if k + 1 < n { states[k + 1] } else { current }));
        }
        lemma_batch_inverse(shorter_states, shorter, states[n - 1]);
    }
}

/// The table with the cells named by `changes` taken from `target`.
pub open spec fn mix_cells(t: Rows, target: Rows, changes: Seq<CellChange>) -> Rows {
    Seq::new(
        t.len(),
        |r: int|
            Seq::new(
                t[r].len(),
                |c: int|
                    if changed_at(changes, changes.len() as int, r, c) {
                        target[r][c]
                    } else {
                        t[r][c]
                    },
            ),
    )
}

/// The text a change writes when replayed in `direction`.
pub open spec fn change_text(change: CellChange, direction: CommandDirection) -> Seq<char> {
    if direction == CommandDirection::Undo {
        change.before@
    } else {
        change.after@
    }
}

/// Replaying cell changes whose texts all come from `target` copies those cells of `target`.
pub proof fn lemma_apply_cells_to(t: Rows, target: Rows, changes: Seq<CellChange>, direction: CommandDirection)
    requires
        target.len() == t.len(),
        forall|r: int| 0 <= r < t.len() ==> #[trigger] target[r].len() == t[r].len(),
        forall|k: int|
            0 <= k < changes.len() ==> {
                let ch = #[trigger] changes[k];
                &&& ch.reference.row < t.len()
                &&& ch.reference.column < t[ch.reference.row as int].len()
                &&& change_text(ch, direction) == target[ch.reference.row as int][ch.reference.column as int]
            },
    ensures
        apply_cells(t, changes, direction) == Some(mix_cells(t, target, changes)),
    decreases changes.len(),
{
    if changes.len() == 0 {
        assert(mix_cells(t, target, changes) =~~= t);
    } else {
        let shorter = changes.drop_last();
        lemma_apply_cells_to(t, target, shorter, direction);
        let t1 = mix_cells(t, target, shorter);
        let ch = changes.last();
        let r0 = ch.reference.row as int;
        let c0 = ch.reference.column as int;
        assert(changes[changes.len() - 1] == ch);
        let value = if direction == CommandDirection::Undo {
            ch.before@
        } else {
            ch.after@
        };
        assert(value == target[r0][c0]);
        let result = t1.update(r0, t1[r0].update(c0, value));
        assert(set_cell_rows(t1, r0, c0, value) == Some(result));
        assert forall|r: int| 0 <= r < t.len() implies #[trigger] result[r] =~= mix_cells(t, target, changes)[r] by {
            assert forall|c: int| 0 <= c < t[r].len() implies result[r][c] == mix_cells(t, target, changes)[r][c] by {
                if r == r0 && c == c0 {
                    assert(changed_at(changes, changes.len() as int, r, c)) by {
                        assert(changes[changes.len() - 1].reference.row == r);
                    }
                } else {
                    if changed_at(changes, changes.len() as int, r, c) {
                        let k = choose|k: int|
                            0 <= k < changes.len() && #[trigger] changes[k].reference.row == r
                                && changes[k].reference.column == c;
                        assert(k < shorter.len());
                        assert(shorter[k] == changes[k]);
                        assert(changed_at(shorter, shorter.len() as int, r, c));
                    } else {
                        if changed_at(shorter, shorter.len() as int, r, c) {
                            let k = choose|k: int|
                                0 <= k < shorter.len() && #[trigger] shorter[k].reference.row == r
                                    && shorter[k].reference.column == c;
                            assert(changes[k] == shorter[k]);
                        }
                    }
                }
            }
        }
        assert(result =~= mix_cells(t, target, changes));
    }
}

/// Replaying a row edit is undone by replaying it the other way.
pub proof fn lemma_rows_inverse(before: Rows, edit: RowEdit, after: Rows)
    requires
        edit.index + edit.removed@.len() <= before.len(),
        before.subrange(edit.index as int, edit.index + edit.removed@.len()) == edit.removed.deep_view(),
        after == splice(before, edit.index as int, edit.removed@.len() as int, edit.inserted.deep_view()),
    ensures
        inverse_pair(before, EditOperation::Rows(edit), after),
{
    let i = edit.index as int;
    let removed = edit.removed.deep_view();
    let inserted = edit.inserted.deep_view();
    assert(removed.len() == edit.removed@.len());
    assert(after.subrange(i, i + inserted.len()) =~= inserted);
    assert(splice(after, i, inserted.len() as int, removed) =~= before);
    assert(apply_rows(after, edit, CommandDirection::Undo) == Some(before));
    assert(apply_rows(before, edit, CommandDirection::Redo) == Some(after));
}

/// Which change, if any, is about row `r`.
pub open spec fn change_for_row(changes: Seq<ColumnChange>, r: int) -> bool {
    exists|k: int| 0 <= k < changes.len() && #[trigger] changes[k].row == r
}

/// The column changes of one edit: at most one per row, in row order, each replacing the
/// cells it says it removed.
pub open spec fn column_edit(before: Rows, changes: Seq<ColumnChange>, after: Rows) -> bool {
    &&& after.len() == before.len()
    &&& forall|j: int, k: int| 0 <= j < k < changes.len() ==> #[trigger] changes[j].row < #[trigger] changes[k].row
    &&& forall|k: int|
        0 <= k < changes.len() ==> {
            let ch = #[trigger] changes[k];
            &&& ch.row < before.len()
            &&& ch.index + ch.removed@.len() <= before[ch.row as int].len()
            &&& before[ch.row as int].subrange(ch.index as int, ch.index + ch.removed@.len())
                == ch.removed.deep_view()
            &&& after[ch.row as int] == splice(
                before[ch.row as int],
                ch.index as int,
                ch.removed@.len() as int,
                ch.inserted.deep_view(),
            )
        }
    &&& forall|r: int| 0 <= r < before.len() && !change_for_row(changes, r) ==> #[trigger] after[r] == before[r]
}

/// The rows that the first `n` changes reach, replaced, the others kept.
pub open spec fn segments_applied(t: Rows, changes: Seq<ColumnChange>, n: int, direction: CommandDirection) -> Rows {
    Seq::new(
        t.len(),
        |r: int|
            if exists|k: int| 0 <= k < n && #[trigger] changes[k].row == r {
                let k = choose|k: int| 0 <= k < n && #[trigger] changes[k].row == r;
                splice(
                    t[r],
                    changes[k].index as int,
                    column_expected(changes[k], direction).len() as int,
                    column_replacement(changes[k], direction),
                )
            } else {
                t[r]
            },
    )
}

proof fn lemma_segments(t: Rows, changes: Seq<ColumnChange>, n: int, direction: CommandDirection)
    requires
        0 <= n <= changes.len(),
        forall|j: int, k: int| 0 <= j < k < changes.len() ==> #[trigger] changes[j].row < #[trigger] changes[k].row,
        forall|k: int| 0 <= k < changes.len() ==> column_matches(t, #[trigger] changes[k], direction),
    ensures
        apply_column_segments(t, changes.take(n), direction) == Some(segments_applied(t, changes, n, direction)),
    decreases n,
{
    let taken = changes.take(n);
    if n == 0 {
        assert(segments_applied(t, changes, 0, direction) =~= t);
    } else {
        lemma_segments(t, changes, n - 1, direction);
        assert(taken.drop_last() =~= changes.take(n - 1));
        let t1 = segments_applied(t, changes, n - 1, direction);
        let ch = changes[n - 1];
        assert(taken.last() == ch);
        assert(column_matches(t, ch, direction));
        let r0 = ch.row as int;
        let expected = column_expected(ch, direction);
        assert(!(exists|k: int| 0 <= k < n - 1 && #[trigger] changes[k].row == r0)) by {
            if exists|k: int| 0 <= k < n - 1 && #[trigger] changes[k].row == r0 {
                let k = choose|k: int| 0 <= k < n - 1 && #[trigger] changes[k].row == r0;
                assert(changes[k].row < changes[n - 1].row);
            }
        }
        assert(t1[r0] == t[r0]);
        let result = t1.update(r0, splice(t1[r0], ch.index as int, expected.len() as int, column_replacement(ch, direction)));
        assert forall|r: int| 0 <= r < t.len() implies #[trigger] result[r] == segments_applied(t, changes, n, direction)[r] by {
            if r == r0 {
                assert(changes[n - 1].row == r);
                let k = choose|k: int| 0 <= k < n && #[trigger] changes[k].row == r;
                if k != n - 1 {
                    assert(changes[k].row < changes[n - 1].row);
                }
            } else {
                if exists|k: int| 0 <= k < n && #[trigger] changes[k].row == r {
                    let k = choose|k: int| 0 <= k < n && #[trigger] changes[k].row == r;
                    assert(k != n - 1);
                    assert(exists|j: int| 0 <= j < n - 1 && #[trigger] changes[j].row == r);
                    let j = choose|j: int| 0 <= j < n - 1 && #[trigger] changes[j].row == r;
                    if j != k {
                        if j < k {
                            assert(changes[j].row < changes[k].row);
                        } else {
                            assert(changes[k].row < changes[j].row);
                        }
                    }
                } else {
                    assert(!(exists|j: int| 0 <= j < n - 1 && #[trigger] changes[j].row == r)) by {
                        if exists|j: int| 0 <= j < n - 1 && #[trigger] changes[j].row == r {
                            let j = choose|j: int| 0 <= j < n - 1 && #[trigger] changes[j].row == r;
                            assert(0 <= j < n);
                        }
                    }
                }
            }
        }
        assert(result =~= segments_applied(t, changes, n, direction));
    }
}

/// A column edit is undone by replaying its changes the other way.
pub proof fn lemma_columns_inverse(before: Rows, changes: Seq<ColumnChange>, after: Rows)
    requires
        column_edit(before, changes, after),
    ensures
        apply_columns(after, changes, CommandDirection::Undo) == Some(before),
        apply_columns(before, changes, CommandDirection::Redo) == Some(after),
{
    assert forall|k: int| 0 <= k < changes.len() implies column_matches(after, #[trigger] changes[k], CommandDirection::Undo) by {
        let ch = changes[k];
        let r = ch.row as int;
        assert(ch.inserted.deep_view().len() == ch.inserted@.len());
        assert(after[r].subrange(ch.index as int, ch.index + ch.inserted@.len()) =~= ch.inserted.deep_view());
    }
    assert forall|k: int| 0 <= k < changes.len() implies column_matches(before, #[trigger] changes[k], CommandDirection::Redo) by {
        let ch = changes[k];
        assert(ch.removed.deep_view().len() == ch.removed@.len());
    }
    lemma_segments(after, changes, changes.len() as int, CommandDirection::Undo);
    lemma_segments(before, changes, changes.len() as int, CommandDirection::Redo);
    assert(changes.take(changes.len() as int) =~= changes);
    let undone = segments_applied(after, changes, changes.len() as int, CommandDirection::Undo);
    let redone = segments_applied(before, changes, changes.len() as int, CommandDirection::Redo);
    assert forall|r: int| 0 <= r < before.len() implies #[trigger] undone[r] == before[r] && redone[r] == after[r] by {
        if exists|k: int| 0 <= k < changes.len() && #[trigger] changes[k].row == r {
            let k = choose|k: int| 0 <= k < changes.len() && #[trigger] changes[k].row == r;
            let ch = changes[k];
            assert(ch.removed.deep_view().len() == ch.removed@.len());
            assert(ch.inserted.deep_view().len() == ch.inserted@.len());
            assert(splice(after[r], ch.index as int, ch.inserted@.len() as int, ch.removed.deep_view()) =~= before[r]);
        } else {
            assert(!change_for_row(changes, r));
        }
    }
    assert(undone =~= before);
    assert(redone =~= after);
}

} // verus!
