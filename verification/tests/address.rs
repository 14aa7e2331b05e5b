use rowly::process::{CellRange, CellRef};

#[test]
fn parses_and_formats_a1_references() {
    for (source, row, column, formatted) in [
        ("A1", 0, 0, "A1"),
        ("z9", 8, 25, "Z9"),
        ("AA10", 9, 26, "AA10"),
        ("XFD1048576", 1_048_575, 16_383, "XFD1048576"),
    ] {
        let reference = source.parse::<CellRef>().unwrap();
        assert_eq!(reference, CellRef::new(row, column));
        assert_eq!(reference.to_string(), formatted);
    }
}

#[test]
fn rejects_invalid_cell_references() {
    for source in ["", "A", "1", "A0", "A-1", "1A", "A1B"] {
        assert!(source.parse::<CellRef>().is_err(), "{source}");
    }
}

#[test]
fn range_normalizes_reverse_corners_and_iterates_rectangle() {
    let range = "B2:A1".parse::<CellRange>().unwrap();

    assert_eq!(range.start(), CellRef::new(0, 0));
    assert_eq!(range.end(), CellRef::new(1, 1));
    assert_eq!(
        range.iter(),
        vec![
            CellRef::new(0, 0),
            CellRef::new(0, 1),
            CellRef::new(1, 0),
            CellRef::new(1, 1),
        ]
    );
    assert_eq!(range.to_string(), "A1:B2");
}

#[test]
fn single_cell_is_a_valid_range() {
    let range = "C3".parse::<CellRange>().unwrap();
    assert_eq!(range.start(), CellRef::new(2, 2));
    assert_eq!(range.end(), CellRef::new(2, 2));
    assert_eq!(range.to_string(), "C3");
}

#[test]
fn formatting_then_parsing_gives_the_reference_back() {
    for (row, column) in [(0, 0), (25, 25), (26, 701), (999, 702), (1_048_575, 16_383)] {
        let reference = CellRef::new(row, column);
        let text = reference.to_string();
        assert_eq!(text.parse::<CellRef>().unwrap(), reference, "{text}");
    }
}

#[test]
fn column_letters_roll_over_after_z() {
    assert_eq!(CellRef::new(0, 25).to_string(), "Z1");
    assert_eq!(CellRef::new(0, 26).to_string(), "AA1");
    assert_eq!(CellRef::new(0, 701).to_string(), "ZZ1");
    assert_eq!(CellRef::new(0, 702).to_string(), "AAA1");
}

#[test]
fn ranges_with_spaces_or_two_colons_are_handled() {
    let range = " a1 : b3 ".parse::<CellRange>().unwrap();
    assert_eq!(range.to_string(), "A1:B3");
    assert!("A1:B2:C3".parse::<CellRange>().is_err());
    assert!("A1:".parse::<CellRange>().is_err());
}

#[test]
fn formatting_then_parsing_gives_the_range_back() {
    for (first, second) in [
        (CellRef::new(0, 0), CellRef::new(0, 0)),
        (CellRef::new(1, 2), CellRef::new(4, 27)),
        (CellRef::new(9, 700), CellRef::new(3, 1)),
    ] {
        let range = CellRange::new(first, second);
        let text = range.to_string();
        assert_eq!(text.parse::<CellRange>().unwrap(), range, "{text}");
    }
}
