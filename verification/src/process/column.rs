use vstd::prelude::*;

use crate::numbers::{finite_decimal_text, integer_value, is_boolean_text, is_finite_decimal_text, parse_boolean, parse_integer};
use crate::data::table::max_width;
use crate::process::address::CellRef;
use crate::process::document::{str_equal, CsvDocument};
use crate::process::history::Rows;
use crate::text::{chars_of, count_list_text, count_list_to_string, count_to_string, decimal_digits};

verus! {

/// The value kinds a column can be declared and checked as.
#[derive(Debug, Clone, Copy, PartialEq, Eq, Structural)]
pub enum ColumnType {
    String,
    Integer,
    Decimal,
    Boolean,
}

/// Whether cell text is acceptable as a value of the column type.
pub open spec fn type_accepts(column_type: ColumnType, value: Seq<char>) -> bool {
    match column_type {
        ColumnType::String => true,
        ColumnType::Integer => integer_value(value) is Some,
        ColumnType::Decimal => is_finite_decimal_text(value),
        ColumnType::Boolean => is_boolean_text(value),
    }
}

impl ColumnType {
    pub fn matches(self, value: &str) -> (accepted: bool)
        ensures
            accepted == type_accepts(self, value@),
    {
        let chars = chars_of(value);
        match self {
            ColumnType::String => true,
            ColumnType::Integer => parse_integer(chars.as_slice()).is_some(),
            ColumnType::Decimal => finite_decimal_text(chars.as_slice()),
            ColumnType::Boolean => parse_boolean(chars.as_slice()).is_some(),
        }
    }
}

/// A checked cell: where it is and the text it holds.
#[derive(Debug, Clone, PartialEq, Eq)]
pub struct ColumnCell {
    pub reference: CellRef,
    pub value: String,
}

impl ColumnCell {
    pub fn reference(&self) -> (reference: CellRef)
        ensures
            reference == self.reference,
    {
        self.reference
    }

    pub fn value(&self) -> (value: &str)
        ensures
            value@ == self.value@,
    {
        self.value.as_str()
    }
}

/// Result of checking a column's data cells against a type.
#[derive(Debug, Clone, PartialEq, Eq)]
pub struct ColumnTypeReport {
    pub column: usize,
    pub column_type: ColumnType,
    pub checked_cells: usize,
    pub mismatches: Vec<ColumnCell>,
}

impl ColumnTypeReport {
    pub fn column(&self) -> (column: usize)
        ensures
            column == self.column,
    {
        self.column
    }

    pub fn column_type(&self) -> (column_type: ColumnType)
        ensures
            column_type == self.column_type,
    {
        self.column_type
    }

    pub fn checked_cells(&self) -> (count: usize)
        ensures
            count == self.checked_cells,
    {
        self.checked_cells
    }

    pub fn mismatches(&self) -> (cells: &[ColumnCell])
        ensures
            cells@ == self.mismatches@,
    {
        self.mismatches.as_slice()
    }

    pub fn is_valid(&self) -> (valid: bool)
        ensures
            valid == (self.mismatches@.len() == 0),
    {
        self.mismatches.len() == 0
    }
}

/// Result of checking a column's data cells for Japanese characters.
#[derive(Debug, Clone, PartialEq, Eq)]
pub struct JapaneseCheckReport {
    pub column: usize,
    pub checked_cells: usize,
    pub matches: Vec<ColumnCell>,
    pub mismatches: Vec<ColumnCell>,
}

impl JapaneseCheckReport {
    pub fn column(&self) -> (column: usize)
        ensures
            column == self.column,
    {
        self.column
    }

    pub fn checked_cells(&self) -> (count: usize)
        ensures
            count == self.checked_cells,
    {
        self.checked_cells
    }

    pub fn matches(&self) -> (cells: &[ColumnCell])
        ensures
            cells@ == self.matches@,
    {
        self.matches.as_slice()
    }

    pub fn mismatches(&self) -> (cells: &[ColumnCell])
        ensures
            cells@ == self.mismatches@,
    {
        self.mismatches.as_slice()
    }

    pub fn all_match(&self) -> (all: bool)
        ensures
            all == (self.checked_cells > 0 && self.mismatches@.len() == 0),
    {
        self.checked_cells > 0 && self.mismatches.len() == 0
    }
}

#[derive(Debug, Clone, PartialEq, Eq)]
pub enum ColumnError {
    HeaderNotFound(String),
    AmbiguousHeader { header: String, columns: Vec<usize> },
    ColumnOutOfBounds { column: usize, column_count: usize },
}

/// The message of a column error.
pub open spec fn column_message(error: ColumnError) -> Seq<char> {
    match error {
        ColumnError::HeaderNotFound(header) => "column header `"@ + header@ + "` was not found"@,
        ColumnError::AmbiguousHeader { header, columns } => "column header `"@ + header@
            + "` is ambiguous across columns "@ + count_list_text(columns@),
        ColumnError::ColumnOutOfBounds { column, column_count } => "column "@ + decimal_digits(
            column as nat,
        ) + " is out of bounds for "@ + decimal_digits(column_count as nat) + " columns"@,
    }
}

impl ColumnError {
    /// The error's message (see `column_message`).
    pub fn to_string(&self) -> (text: String)
        ensures
            text@ == column_message(*self),
    {
        match self {
            ColumnError::HeaderNotFound(header) => {
                let mut message = String::from_str("column header `");
                message.append(header.as_str());
                message.append("` was not found");
                message
            },
            ColumnError::AmbiguousHeader { header, columns } => {
                let mut message = String::from_str("column header `");
                message.append(header.as_str());
                message.append("` is ambiguous across columns ");
                let list = count_list_to_string(columns);
                message.append(list.as_str());
                message
            },
            ColumnError::ColumnOutOfBounds { column, column_count } => {
                let mut message = String::from_str("column ");
                let first = count_to_string(*column);
                message.append(first.as_str());
                message.append(" is out of bounds for ");
                let second = count_to_string(*column_count);
                message.append(second.as_str());
                message.append(" columns");
                message
            },
        }
    }
}

/// Kana, CJK ideographs (with extension A and compatibility forms), the iteration and
/// closing marks `々〆〇`, and half-width katakana.
pub open spec fn is_japanese_character(c: char) -> bool {
    let code = c as u32;
    ||| (0x3005 <= code && code <= 0x3007)
    ||| (0x3040 <= code && code <= 0x309F)
    ||| (0x30A0 <= code && code <= 0x30FF)
    ||| (0x31F0 <= code && code <= 0x31FF)
    ||| (0x3400 <= code && code <= 0x4DBF)
    ||| (0x4E00 <= code && code <= 0x9FFF)
    ||| (0xF900 <= code && code <= 0xFAFF)
    ||| (0xFF66 <= code && code <= 0xFF9D)
}

pub open spec fn has_japanese(value: Seq<char>) -> bool {
    exists|i: int| 0 <= i < value.len() && is_japanese_character(#[trigger] value[i])
}

pub fn japanese_character(c: char) -> (result: bool)
    ensures
        result == is_japanese_character(c),
{
    let code = c as u32;
    (0x3005 <= code && code <= 0x3007) || (0x3040 <= code && code <= 0x309F) || (0x30A0 <= code
        && code <= 0x30FF) || (0x31F0 <= code && code <= 0x31FF) || (0x3400 <= code && code
        <= 0x4DBF) || (0x4E00 <= code && code <= 0x9FFF) || (0xF900 <= code && code <= 0xFAFF)
        || (0xFF66 <= code && code <= 0xFF9D)
}

/// Whether the text holds at least one Japanese character.
pub fn contains_japanese(value: &str) -> (result: bool)
    ensures
        result == has_japanese(value@),
{
    let chars = chars_of(value);
    let mut index: usize = 0;
    while index < chars.len()
        invariant
            index <= chars@.len(),
            chars@ == value@,
            forall|i: int| 0 <= i < index ==> !is_japanese_character(#[trigger] chars@[i]),
        decreases chars@.len() - index,
    {
        if japanese_character(chars[index]) {
            return true;
        }
        index += 1;
    }
    false
}

/// The first row holds `header` at `column`.
pub open spec fn header_at(rows: Rows, header: Seq<char>, column: int) -> bool {
    rows.len() > 0 && 0 <= column < rows[0].len() && rows[0][column] == header
}

/// The columns among `0..count` whose first-row cell is `header`, in increasing order.
pub open spec fn header_columns(rows: Rows, header: Seq<char>, count: int) -> Seq<usize>
    decreases count,
{
    if count <= 0 {
        seq![]
    } else if header_at(rows, header, count - 1) {
        header_columns(rows, header, count - 1).push((count - 1) as usize)
    } else {
        header_columns(rows, header, count - 1)
    }
}

/// The data rows (row 1 up to `count`) that have a cell in `column`.
pub open spec fn data_rows(rows: Rows, column: int, count: int) -> Seq<int>
    decreases count,
{
    if count <= 1 {
        seq![]
    } else if column < rows[count - 1].len() {
        data_rows(rows, column, count - 1).push(count - 1)
    } else {
        data_rows(rows, column, count - 1)
    }
}

/// The data rows up to `count` that have a cell in `column` are those rows, each once, in
/// increasing order.
pub proof fn lemma_data_rows_members(rows: Rows, column: int, count: int)
    requires
        0 <= column,
        count <= rows.len(),
    ensures
        forall|r: int| #[trigger] data_rows(rows, column, count).contains(r) <==> 1 <= r < count && column
            < rows[r].len(),
        forall|i: int, j: int|
            0 <= i < j < data_rows(rows, column, count).len() ==> #[trigger] data_rows(rows, column, count)[i]
                < #[trigger] data_rows(rows, column, count)[j],
        forall|i: int|
            0 <= i < data_rows(rows, column, count).len() ==> #[trigger] data_rows(rows, column, count)[i] < count,
    decreases count,
{
    if count > 1 {
        lemma_data_rows_members(rows, column, count - 1);
        let before = data_rows(rows, column, count - 1);
        if column < rows[count - 1].len() {
            assert forall|r: int| #[trigger] before.push(count - 1).contains(r) <==> (before.contains(r) || r
                == count - 1) by {
                if r == count - 1 {
                    assert(before.push(count - 1)[before.len() as int] == r);
                }
                if before.contains(r) {
                    let k = choose|k: int| 0 <= k < before.len() && before[k] == r;
                    assert(before.push(count - 1)[k] == r);
                }
            }
        }
    }
}

/// The number of data rows that have a cell in `column` (see `data_rows`) is the number of
/// rows `r`, `1 <= r < count`, that have a cell there.
pub proof fn lemma_data_rows_count(rows: Rows, column: int, count: int)
    requires
        0 <= column,
        count <= rows.len(),
    ensures
        data_rows(rows, column, count).len() == Set::new(|r: int| 1 <= r < count && column < rows[r].len()).len(),
{
    lemma_data_rows_members(rows, column, count);
    let found = data_rows(rows, column, count);
    assert(found.no_duplicates()) by {
        assert forall|i: int, j: int| 0 <= i < found.len() && 0 <= j < found.len() && i != j implies found[i]
            != found[j] by {
            if i < j {
                assert(found[i] < found[j]);
            } else {
                assert(found[j] < found[i]);
            }
        }
    }
    found.unique_seq_to_set();
    assert(found.to_set() =~= Set::new(|r: int| 1 <= r < count && column < rows[r].len()));
}

/// The data rows up to `count` whose cell in `column` satisfies `keep`.
pub open spec fn data_rows_where(
    rows: Rows,
    column: int,
    count: int,
    keep: spec_fn(Seq<char>) -> bool,
) -> Seq<int>
    decreases count,
{
    if count <= 1 {
        seq![]
    } else if column < rows[count - 1].len() && keep(rows[count - 1][column]) {
        data_rows_where(rows, column, count - 1, keep).push(count - 1)
    } else {
        data_rows_where(rows, column, count - 1, keep)
    }
}

/// `cells` are the cells of `column` at `rows_at`, in that order.
pub open spec fn cells_at(cells: Seq<ColumnCell>, rows: Rows, column: int, rows_at: Seq<int>) -> bool {
    &&& cells.len() == rows_at.len()
    &&& forall|k: int|
        0 <= k < cells.len() ==> {
            &&& (#[trigger] cells[k]).reference.row == rows_at[k]
            &&& cells[k].reference.column == column
            &&& cells[k].value@ == rows[rows_at[k]][column]
        }
}

impl CsvDocument {
    /// Every column whose first-row cell is exactly `header`, in increasing order.
    pub fn column_indices_by_header(&self, header: &str) -> (columns: Vec<usize>)
        ensures
            columns@ == header_columns(self@, header@, max_width(self@) as int),
    {
        let count = self.column_count();
        let mut columns: Vec<usize> = Vec::new();
        let mut column: usize = 0;
        while column < count
            invariant
                column <= count == max_width(self@),
                columns@ == header_columns(self@, header@, column as int),
            decreases count - column,
        {
            match self.cell(0, column) {
                Some(text) => {
                    if str_equal(text, header) {
                        columns.push(column);
                    }
                },
                None => {},
            }
            column += 1;
        }
        columns
    }

    /// The one column whose first-row cell is exactly `header`.
    pub fn column_index_by_header(&self, header: &str) -> (result: Result<usize, ColumnError>)
        ensures
            ({
                let found = header_columns(self@, header@, max_width(self@) as int);
                match result {
                    Ok(column) => found.len() == 1 && found[0] == column,
                    Err(ColumnError::HeaderNotFound(name)) => found.len() == 0 && name@ == header@,
                    Err(ColumnError::AmbiguousHeader { header: name, columns }) => found.len() > 1
                        && name@ == header@ && columns@ == found,
                    Err(ColumnError::ColumnOutOfBounds { .. }) => false,
                }
            }),
    {
        let columns = self.column_indices_by_header(header);
        if columns.len() == 1 {
            Ok(columns[0])
        } else if columns.len() == 0 {
            Err(ColumnError::HeaderNotFound(header.to_owned()))
        } else {
            Err(ColumnError::AmbiguousHeader { header: header.to_owned(), columns })
        }
    }

    pub fn ensure_column_exists(&self, column: usize) -> (result: Result<(), ColumnError>)
        ensures
            result is Ok <==> column < max_width(self@),
            result is Err ==> result == Err::<(), ColumnError>(
                ColumnError::ColumnOutOfBounds { column, column_count: max_width(self@) as usize },
            ),
    {
        let column_count = self.column_count();
        if column >= column_count {
            return Err(ColumnError::ColumnOutOfBounds { column, column_count });
        }
        Ok(())
    }

    /// Checks every data cell (rows after the first) of `column` against `column_type`,
    /// without changing the table.
    pub fn validate_column_type(&self, column: usize, column_type: ColumnType) -> (result: Result<
        ColumnTypeReport,
        ColumnError,
    >)
        ensures
            match result {
                Ok(report) => {
                    &&& column < max_width(self@)
                    &&& report.column == column
                    &&& report.column_type == column_type
                    &&& report.checked_cells == data_rows(self@, column as int, self@.len() as int).len()
                    &&& report.checked_cells == Set::new(
                        |r: int| 1 <= r < self@.len() && column < self@[r].len(),
                    ).len()
                    &&& cells_at(
                        report.mismatches@,
                        self@,
                        column as int,
                        data_rows_where(
                            self@,
                            column as int,
                            self@.len() as int,
                            |value: Seq<char>| !type_accepts(column_type, value),
                        ),
                    )
                },
                Err(error) => column >= max_width(self@) && error == ColumnError::ColumnOutOfBounds {
                    column,
                    column_count: max_width(self@) as usize,
                },
            },
    {
        self.ensure_column_exists(column)?;
        let ghost keep = |value: Seq<char>| !type_accepts(column_type, value);
        let row_count = self.row_count();
        let mut checked_cells: usize = 0;
        let mut mismatches: Vec<ColumnCell> = Vec::new();
        let mut row: usize = 1;
        while row < row_count
            invariant
                1 <= row,
                row_count == self@.len(),
                row <= row_count || row_count == 0,
                checked_cells == data_rows(self@, column as int, row as int).len(),
                checked_cells <= row,
                cells_at(mismatches@, self@, column as int, data_rows_where(self@, column as int, row as int, keep)),
                keep == |value: Seq<char>| !type_accepts(column_type, value),
            decreases row_count - row,
        {
            match self.cell(row, column) {
                Some(value) => {
                    checked_cells += 1;
                    if !column_type.matches(value) {
                        let ghost before = mismatches@;
                        mismatches.push(ColumnCell { reference: CellRef::new(row, column), value: value.to_owned() });
                        proof {
                            assert(keep(self@[row as int][column as int]));
                        }
                    } else {
                        proof {
                            assert(!keep(self@[row as int][column as int]));
                        }
                    }
                },
                None => {},
            }
            row += 1;
        }
        proof {
            if row_count == 0 {
                assert(data_rows(self@, column as int, 0) == data_rows(self@, column as int, 1));
            }
            lemma_data_rows_count(self@, column as int, self@.len() as int);
        }
        Ok(ColumnTypeReport { column, column_type, checked_cells, mismatches })
    }

    pub fn validate_column_type_by_header(&self, header: &str, column_type: ColumnType) -> (result:
        Result<ColumnTypeReport, ColumnError>)
        ensures
            match result {
                Ok(report) => {
                    let found = header_columns(self@, header@, max_width(self@) as int);
                    &&& found.len() == 1
                    &&& report.column == found[0]
                    &&& report.column_type == column_type
                    &&& report.checked_cells == data_rows(self@, found[0] as int, self@.len() as int).len()
                    &&& cells_at(
                        report.mismatches@,
                        self@,
                        found[0] as int,
                        data_rows_where(
                            self@,
                            found[0] as int,
                            self@.len() as int,
                            |value: Seq<char>| !type_accepts(column_type, value),
                        ),
                    )
                },
                Err(ColumnError::HeaderNotFound(name)) => header_columns(self@, header@, max_width(self@) as int).len()
                    == 0 && name@ == header@,
                Err(ColumnError::AmbiguousHeader { header: name, columns }) => {
                    let found = header_columns(self@, header@, max_width(self@) as int);
                    found.len() > 1 && name@ == header@ && columns@ == found
                },
                Err(ColumnError::ColumnOutOfBounds { .. }) => false,
            },
    {
        let column = self.column_index_by_header(header)?;
        proof {
            lemma_header_columns_bound(self@, header@, max_width(self@) as int);
        }
        self.validate_column_type(column, column_type)
    }

    /// Sorts the data cells of `column` into those holding Japanese text and the rest,
    /// without changing the table.
    pub fn check_column_japanese(&self, column: usize) -> (result: Result<
        JapaneseCheckReport,
        ColumnError,
    >)
        ensures
            match result {
                Ok(report) => {
                    &&& column < max_width(self@)
                    &&& report.column == column
                    &&& report.checked_cells == data_rows(self@, column as int, self@.len() as int).len()
                    &&& cells_at(
                        report.matches@,
                        self@,
                        column as int,
                        data_rows_where(self@, column as int, self@.len() as int, |value: Seq<char>| has_japanese(value)),
                    )
                    &&& cells_at(
                        report.mismatches@,
                        self@,
                        column as int,
                        data_rows_where(self@, column as int, self@.len() as int, |value: Seq<char>| !has_japanese(value)),
                    )
                },
                Err(error) => column >= max_width(self@) && error == ColumnError::ColumnOutOfBounds {
                    column,
                    column_count: max_width(self@) as usize,
                },
            },
    {
        self.ensure_column_exists(column)?;
        let ghost yes = |value: Seq<char>| has_japanese(value);
        let ghost no = |value: Seq<char>| !has_japanese(value);
        let row_count = self.row_count();
        let mut checked_cells: usize = 0;
        let mut matches: Vec<ColumnCell> = Vec::new();
        let mut mismatches: Vec<ColumnCell> = Vec::new();
        let mut row: usize = 1;
        while row < row_count
            invariant
                1 <= row,
                row_count == self@.len(),
                row <= row_count || row_count == 0,
                checked_cells == data_rows(self@, column as int, row as int).len(),
                checked_cells <= row,
                cells_at(matches@, self@, column as int, data_rows_where(self@, column as int, row as int, yes)),
                cells_at(mismatches@, self@, column as int, data_rows_where(self@, column as int, row as int, no)),
                yes == |value: Seq<char>| has_japanese(value),
                no == |value: Seq<char>| !has_japanese(value),
            decreases row_count - row,
        {
            match self.cell(row, column) {
                Some(value) => {
                    checked_cells += 1;
                    let cell = ColumnCell { reference: CellRef::new(row, column), value: value.to_owned() };
                    if contains_japanese(value) {
                        matches.push(cell);
                    } else {
                        mismatches.push(cell);
                    }
                },
                None => {},
            }
            row += 1;
        }
        proof {
            if row_count == 0 {
                assert(data_rows(self@, column as int, 0) == data_rows(self@, column as int, 1));
            }
        }
        Ok(JapaneseCheckReport { column, checked_cells, matches, mismatches })
    }

    pub fn check_column_japanese_by_header(&self, header: &str) -> (result: Result<
        JapaneseCheckReport,
        ColumnError,
    >)
        ensures
            match result {
                Ok(report) => {
                    let found = header_columns(self@, header@, max_width(self@) as int);
                    &&& found.len() == 1
                    &&& report.column == found[0]
                    &&& report.checked_cells == data_rows(self@, found[0] as int, self@.len() as int).len()
                    &&& cells_at(
                        report.matches@,
                        self@,
                        found[0] as int,
                        data_rows_where(self@, found[0] as int, self@.len() as int, |value: Seq<char>| has_japanese(value)),
                    )
                    &&& cells_at(
                        report.mismatches@,
                        self@,
                        found[0] as int,
                        data_rows_where(self@, found[0] as int, self@.len() as int, |value: Seq<char>| !has_japanese(value)),
                    )
                },
                Err(ColumnError::HeaderNotFound(name)) => header_columns(self@, header@, max_width(self@) as int).len()
                    == 0 && name@ == header@,
                Err(ColumnError::AmbiguousHeader { header: name, columns }) => {
                    let found = header_columns(self@, header@, max_width(self@) as int);
                    found.len() > 1 && name@ == header@ && columns@ == found
                },
                Err(ColumnError::ColumnOutOfBounds { .. }) => false,
            },
    {
        let column = self.column_index_by_header(header)?;
        proof {
            lemma_header_columns_bound(self@, header@, max_width(self@) as int);
        }
        self.check_column_japanese(column)
    }
}

/// Every column found by `header_columns` lies below `count`.
pub proof fn lemma_header_columns_bound(rows: Rows, header: Seq<char>, count: int)
    ensures
        forall|k: int|
            0 <= k < header_columns(rows, header, count).len() ==> #[trigger] header_columns(
                rows,
                header,
                count,
            )[k] < count,
    decreases count,
{
    if count > 0 {
        lemma_header_columns_bound(rows, header, count - 1);
        let previous = header_columns(rows, header, count - 1);
        let current = header_columns(rows, header, count);
        assert forall|k: int| 0 <= k < current.len() implies #[trigger] current[k] < count by {
            if k < previous.len() {
                assert(current[k] == previous[k]);
            }
        }
    }
}

} // verus!
