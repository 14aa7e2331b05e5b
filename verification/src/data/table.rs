use vstd::prelude::*;

verus! {

/// Width of the widest row of a table view.
pub open spec fn max_width(rows: Seq<Seq<Seq<char>>>) -> nat
    decreases rows.len(),
{
    if rows.len() == 0 {
        0
    } else {
        let rest = max_width(rows.drop_last());
        if rows.last().len() > rest {
            rows.last().len()
        } else {
            rest
        }
    }
}

/// Replacing `count` items of `s` starting at `index` by `inserted`.
pub open spec fn splice<A>(s: Seq<A>, index: int, count: int, inserted: Seq<A>) -> Seq<A> {
    s.subrange(0, index) + inserted + s.subrange(index + count, s.len() as int)
}

#[derive(Debug, Clone, Copy, PartialEq, Eq)]
pub enum TableError {
    RowOutOfBounds { row: usize, row_count: usize },
    RowInsertOutOfBounds { index: usize, row_count: usize },
    RowRangeOutOfBounds { index: usize, remove_count: usize, row_count: usize },
    ColumnOutOfBounds { row: usize, column: usize, column_count: usize },
    ColumnInsertOutOfBounds { row: usize, index: usize, column_count: usize },
    ColumnRangeOutOfBounds { row: usize, index: usize, remove_count: usize, column_count: usize },
    RangeOverflow,
}

/// The canonical textual table: rows of cells, possibly ragged.
#[derive(Debug)]
pub struct Table {
    rows: Vec<Vec<String>>,
}

impl View for Table {
    type V = Seq<Seq<Seq<char>>>;

    closed spec fn view(&self) -> Seq<Seq<Seq<char>>> {
        self.rows.deep_view()
    }
}

proof fn lemma_deep_view_splice(
    a: Seq<Vec<String>>,
    b: Seq<Vec<String>>,
    c: Seq<Vec<String>>,
)
    ensures
        Seq::new((a + b + c).len(), |i: int| (a + b + c)[i].deep_view()) =~= Seq::new(
            a.len(),
            |i: int| a[i].deep_view(),
        ) + Seq::new(b.len(), |i: int| b[i].deep_view()) + Seq::new(
            c.len(),
            |i: int| c[i].deep_view(),
        ),
{
}

impl Table {
    pub fn new(rows: Vec<Vec<String>>) -> (table: Self)
        ensures
            table@ == rows.deep_view(),
    {
        Self { rows }
    }

    pub fn row_count(&self) -> (count: usize)
        ensures
            count == self@.len(),
    {
        self.rows.len()
    }

    pub fn column_count(&self) -> (count: usize)
        ensures
            count == max_width(self@),
    {
        let mut width: usize = 0;
        let mut index: usize = 0;
        while index < self.rows.len()
            invariant
                index <= self.rows@.len(),
                width == max_width(self@.take(index as int)),
            decreases self.rows@.len() - index,
        {
            assert(self@.take(index + 1).drop_last() =~= self@.take(index as int));
            let current = self.rows[index].len();
            if current > width {
                width = current;
            }
            index += 1;
        }
        assert(self@.take(index as int) =~= self@);
        width
    }

    pub fn cell(&self, row: usize, column: usize) -> (value: Option<&str>)
        ensures
            match value {
                Some(text) => row < self@.len() && column < self@[row as int].len()
                    && text@ == self@[row as int][column as int],
                None => !(row < self@.len() && column < self@[row as int].len()),
            },
    {
        if row < self.rows.len() && column < self.rows[row].len() {
            Some(self.rows[row][column].as_str())
        } else {
            None
        }
    }

    pub fn set_cell(&mut self, row: usize, column: usize, value: String) -> (result: Result<
        bool,
        TableError,
    >)
        ensures
            match result {
                Ok(changed) => {
                    &&& row < old(self)@.len()
                    &&& column < old(self)@[row as int].len()
                    &&& changed == (old(self)@[row as int][column as int] != value@)
                    &&& final(self)@ == old(self)@.update(
                        row as int,
                        old(self)@[row as int].update(column as int, value@),
                    )
                },
                Err(error) => {
                    &&& final(self)@ == old(self)@
                    &&& if row >= old(self)@.len() {
                        error == TableError::RowOutOfBounds { row, row_count: old(self)@.len() as usize }
                    } else {
                        &&& column >= old(self)@[row as int].len()
                        &&& error == TableError::ColumnOutOfBounds {
                            row,
                            column,
                            column_count: old(self)@[row as int].len() as usize,
                        }
                    }
                },
            },
    {
        let row_count = self.rows.len();
        if row >= row_count {
            return Err(TableError::RowOutOfBounds { row, row_count });
        }
        let column_count = self.rows[row].len();
        if column >= column_count {
            return Err(TableError::ColumnOutOfBounds { row, column, column_count });
        }
        let changed = !(self.rows[row][column] == value);
        let ghost before = self.rows@;
        let mut current = self.rows.remove(row);
        current.set(column, value);
        self.rows.insert(row, current);
        proof {
            assert(self.rows@ =~= before.update(row as int, current));
            assert(current.deep_view() =~= old(self)@[row as int].update(column as int, value@));
            assert(self@ =~= old(self)@.update(
                row as int,
                old(self)@[row as int].update(column as int, value@),
            ));
        }
        Ok(changed)
    }

    pub fn replace_rows(
        &mut self,
        index: usize,
        remove_count: usize,
        inserted: Vec<Vec<String>>,
    ) -> (result: Result<Vec<Vec<String>>, TableError>)
        ensures
            match result {
                Ok(removed) => {
                    &&& index + remove_count <= old(self)@.len()
                    &&& removed.deep_view() == old(self)@.subrange(
                        index as int,
                        index + remove_count,
                    )
                    &&& final(self)@ == splice(
                        old(self)@,
                        index as int,
                        remove_count as int,
                        inserted.deep_view(),
                    )
                },
                Err(error) => {
                    &&& final(self)@ == old(self)@
                    &&& if index > old(self)@.len() {
                        error == TableError::RowInsertOutOfBounds {
                            index,
                            row_count: old(self)@.len() as usize,
                        }
                    } else if index + remove_count > usize::MAX {
                        &&& error == TableError::RangeOverflow
                        &&& index + remove_count > old(self)@.len()
                    } else {
                        &&& index + remove_count > old(self)@.len()
                        &&& error == TableError::RowRangeOutOfBounds {
                            index,
                            remove_count,
                            row_count: old(self)@.len() as usize,
                        }
                    }
                },
            },
    {
        let row_count = self.rows.len();
        if index > row_count {
            return Err(TableError::RowInsertOutOfBounds { index, row_count });
        }
        let end = match index.checked_add(remove_count) {
            Some(end) => end,
            None => {
                return Err(TableError::RangeOverflow);
            },
        };
        if end > row_count {
            return Err(TableError::RowRangeOutOfBounds { index, remove_count, row_count });
        }
        let ghost before = self.rows@;
        let mut inserted = inserted;
        let ghost inserted_rows = inserted@;
        let mut removed = self.rows.split_off(index);
        let mut rest = removed.split_off(remove_count);
        self.rows.append(&mut inserted);
        self.rows.append(&mut rest);
        proof {
            let a = before.subrange(0, index as int);
            let c = before.subrange(end as int, before.len() as int);
            assert(removed@ =~= before.subrange(index as int, end as int));
            assert(self.rows@ =~= a + inserted_rows + c);
            lemma_deep_view_splice(a, inserted_rows, c);
            assert(self@ =~= splice(
                old(self)@,
                index as int,
                remove_count as int,
                Seq::new(inserted_rows.len(), |i: int| inserted_rows[i].deep_view()),
            ));
            assert(removed.deep_view() =~= old(self)@.subrange(index as int, end as int));
        }
        Ok(removed)
    }

    pub fn replace_row_segment(
        &mut self,
        row: usize,
        index: usize,
        remove_count: usize,
        inserted: &[String],
    ) -> (result: Result<Vec<String>, TableError>)
        ensures
            match result {
                Ok(removed) => {
                    &&& row < old(self)@.len()
                    &&& index + remove_count <= old(self)@[row as int].len()
                    &&& removed.deep_view() == old(self)@[row as int].subrange(
                        index as int,
                        index + remove_count,
                    )
                    &&& final(self)@ == old(self)@.update(
                        row as int,
                        splice(
                            old(self)@[row as int],
                            index as int,
                            remove_count as int,
                            inserted@.map_values(|s: String| s@),
                        ),
                    )
                },
                Err(error) => {
                    &&& final(self)@ == old(self)@
                    &&& if row >= old(self)@.len() {
                        error == TableError::RowOutOfBounds { row, row_count: old(self)@.len() as usize }
                    } else if index > old(self)@[row as int].len() {
                        error == TableError::ColumnInsertOutOfBounds {
                            row,
                            index,
                            column_count: old(self)@[row as int].len() as usize,
                        }
                    } else if index + remove_count > usize::MAX {
                        &&& error == TableError::RangeOverflow
                        &&& index + remove_count > old(self)@[row as int].len()
                    } else {
                        &&& index + remove_count > old(self)@[row as int].len()
                        &&& error == TableError::ColumnRangeOutOfBounds {
                            row,
                            index,
                            remove_count,
                            column_count: old(self)@[row as int].len() as usize,
                        }
                    }
                },
            },
    {
        let row_count = self.rows.len();
        if row >= row_count {
            return Err(TableError::RowOutOfBounds { row, row_count });
        }
        let column_count = self.rows[row].len();
        if index > column_count {
            return Err(TableError::ColumnInsertOutOfBounds { row, index, column_count });
        }
        let end = match index.checked_add(remove_count) {
            Some(end) => end,
            None => {
                return Err(TableError::RangeOverflow);
            },
        };
        if end > column_count {
            return Err(TableError::ColumnRangeOutOfBounds { row, index, remove_count, column_count });
        }
        let ghost before = self.rows@;
        let mut current = self.rows.remove(row);
        let ghost original = current@;
        let mut removed = current.split_off(index);
        let mut rest = removed.split_off(remove_count);
        let mut position: usize = 0;
        while position < inserted.len()
            invariant
                position <= inserted@.len(),
                current@ == original.subrange(0, index as int) + inserted@.subrange(0, position as int),
            decreases inserted@.len() - position,
        {
            current.push(inserted[position].clone());
            assert(current@ =~= original.subrange(0, index as int) + inserted@.subrange(0, position + 1));
            position += 1;
        }
        current.append(&mut rest);
        let ghost updated = current;
        self.rows.insert(row, current);
        proof {
            assert(inserted@.subrange(0, position as int) =~= inserted@);
            assert(updated@ =~= original.subrange(0, index as int) + inserted@ + original.subrange(end as int, original.len() as int));
            assert(self.rows@ =~= before.update(row as int, updated));
            assert(updated.deep_view() =~= splice(
                old(self)@[row as int],
                index as int,
                remove_count as int,
                inserted@.map_values(|s: String| s@),
            ));
            assert(self@ =~= old(self)@.update(
                row as int,
                splice(
                    old(self)@[row as int],
                    index as int,
                    remove_count as int,
                    inserted@.map_values(|s: String| s@),
                ),
            ));
            assert(removed@ =~= original.subrange(index as int, end as int));
            assert(removed.deep_view() =~= old(self)@[row as int].subrange(index as int, end as int));
        }
        Ok(removed)
    }

    pub fn rows(&self) -> (rows: &Vec<Vec<String>>)
        ensures
            rows.deep_view() == self@,
    {
        &self.rows
    }
}

} // verus!
