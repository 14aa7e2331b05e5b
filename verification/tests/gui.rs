use rowly::gui::{
    cell_range, column_label, grid_key_action, update_selection, GridKeyAction, GridKeys,
};
use rowly::process::CellRef;

#[test]
fn column_labels_count_in_letters() {
    assert_eq!(column_label(0), "A");
    assert_eq!(column_label(25), "Z");
    assert_eq!(column_label(26), "AA");
    assert_eq!(column_label(701), "ZZ");
    assert_eq!(column_label(702), "AAA");
}

#[test]
fn cell_range_orders_the_corners() {
    assert_eq!(cell_range(CellRef::new(5, 1), CellRef::new(2, 4)), (2, 5, 1, 4));
}

#[test]
fn selection_is_kept_inside_the_table() {
    let mut selection = CellRef::new(0, 0);
    let mut anchor = CellRef::new(0, 0);
    let mut reference = String::new();
    let mut editing = true;
    update_selection(
        &mut selection,
        &mut anchor,
        &mut reference,
        &mut editing,
        CellRef::new(10, 10),
        false,
        (3, 2),
    );
    assert_eq!(selection, CellRef::new(2, 1));
    assert_eq!(anchor, CellRef::new(2, 1));
    assert_eq!(reference, "B3");
    assert!(!editing);

    update_selection(
        &mut selection,
        &mut anchor,
        &mut reference,
        &mut editing,
        CellRef::new(0, 0),
        true,
        (3, 2),
    );
    assert_eq!(selection, CellRef::new(0, 0));
    assert_eq!(anchor, CellRef::new(2, 1));

    update_selection(
        &mut selection,
        &mut anchor,
        &mut reference,
        &mut editing,
        CellRef::new(4, 4),
        false,
        (0, 0),
    );
    assert_eq!(selection, CellRef::new(0, 0));
    assert_eq!(reference, "A1");
}

#[test]
fn grid_keys_choose_one_action_in_order_of_precedence() {
    let none = GridKeys {
        undo: false,
        redo: false,
        cancel: false,
        direction: None,
        edit: false,
        shift: false,
    };
    let at = CellRef::new(0, 3);
    assert_eq!(grid_key_action(none, at), GridKeyAction::Nothing);
    assert_eq!(
        grid_key_action(GridKeys { undo: true, redo: true, ..none }, at),
        GridKeyAction::Undo
    );
    assert_eq!(
        grid_key_action(GridKeys { redo: true, edit: true, ..none }, at),
        GridKeyAction::Redo
    );
    assert_eq!(
        grid_key_action(GridKeys { direction: Some((-1, -1)), shift: true, ..none }, at),
        GridKeyAction::Move { row: 0, column: 2, extend: true }
    );
    assert_eq!(
        grid_key_action(GridKeys { edit: true, ..none }, at),
        GridKeyAction::BeginEdit
    );
}
