//! Read-only logical views over a project's CSV sources. Every row keeps its source id,
//! file and record index; grouping files into tables by header never rewrites or merges
//! the files themselves.

use vstd::prelude::*;

use crate::data::csv_io::{csv_records, decoded_text};
use crate::process::document::{str_equal, CsvDocument};
use crate::process::history::Rows;
use crate::project::{is_absolute_path, path_segments};
use crate::rowly_dsl::value::{
    lemma_text_order_antisymmetric, lemma_text_order_transitive, lemma_text_order_zero, text_order,
};
use crate::text::{chars_of, eq_ci, lower_seq, to_ascii_lower};

verus! {

/// Where a row came from: its source, its file, and its zero-based index among the
/// file's data records (the header record is not counted).
#[derive(Debug, Clone, PartialEq, Eq)]
pub struct SourceRecord {
    pub source_id: String,
    pub path: String,
    pub record_index: usize,
}

/// A data record of a source file, with where it came from.
#[derive(Debug, Clone, PartialEq, Eq)]
pub struct LogicalRow {
    pub values: Vec<String>,
    pub origin: SourceRecord,
}

/// The rows of every file that has exactly this header, in the order they were read.
#[derive(Debug, Clone, PartialEq, Eq)]
pub struct LogicalTable {
    /// The exact ordered header shared by every file in this table.
    pub schema: Vec<String>,
    /// Indices into `rows`; the order in which rows are shown. Reordering it never
    /// changes where a row came from.
    pub display_order: Vec<usize>,
    pub rows: Vec<LogicalRow>,
    /// The sources whose files joined this table, in the order they first did.
    pub source_ids: Vec<String>,
    /// The source that writes go to when none is named; one of `source_ids`.
    pub default_write_target: Option<String>,
}

/// A project's files grouped into tables by header, in the order headers were first
/// seen.
#[derive(Debug, Clone, PartialEq, Eq)]
pub struct LogicalProject {
    pub tables: Vec<LogicalTable>,
}

/// Why a project's sources could not be loaded.
#[derive(Debug, Clone, PartialEq, Eq)]
pub enum LogicalLoadError {
    MissingDirectory(String),
    MissingHeader(String),
    ReadDirectory { path: String, message: String },
    Csv { path: String, message: String },
}

/// The message of a load error.
pub open spec fn logical_message(error: LogicalLoadError) -> Seq<char> {
    match error {
        LogicalLoadError::MissingDirectory(path) => "project source directory does not exist: "@
            + path@,
        LogicalLoadError::MissingHeader(path) => "CSV has no header record: "@ + path@,
        LogicalLoadError::ReadDirectory { path, message } => "failed to read `"@ + path@ + "`: "@
            + message@,
        LogicalLoadError::Csv { path, message } => "failed to load CSV `"@ + path@ + "`: "@
            + message@,
    }
}

impl LogicalLoadError {
    /// The error's message (see `logical_message`).
    pub fn to_string(&self) -> (text: String)
        ensures
            text@ == logical_message(*self),
    {
        match self {
            LogicalLoadError::MissingDirectory(path) => {
                let mut text = String::from_str("project source directory does not exist: ");
                text.append(path.as_str());
                text
            },
            LogicalLoadError::MissingHeader(path) => {
                let mut text = String::from_str("CSV has no header record: ");
                text.append(path.as_str());
                text
            },
            LogicalLoadError::ReadDirectory { path, message } => {
                let mut text = String::from_str("failed to read `");
                text.append(path.as_str());
                text.append("`: ");
                text.append(message.as_str());
                text
            },
            LogicalLoadError::Csv { path, message } => {
                let mut text = String::from_str("failed to load CSV `");
                text.append(path.as_str());
                text.append("`: ");
                text.append(message.as_str());
                text
            },
        }
    }
}

/// A list of strings as text.
pub open spec fn texts(values: Seq<String>) -> Seq<Seq<char>> {
    values.map_values(|value: String| value@)
}

/// `order` lists `0..count` in increasing order.
pub open spec fn identity_order(order: Seq<usize>, count: int) -> bool {
    order.len() == count && forall|i: int| 0 <= i < count ==> order[i] == i
}

/// Each table's header occurs in no other table, and each table shows its rows in the
/// order they were read.
pub open spec fn tables_wf(tables: Seq<LogicalTable>) -> bool {
    &&& forall|i: int, j: int|
        0 <= i < j < tables.len() ==> texts((#[trigger] tables[i]).schema@) != texts(
            (#[trigger] tables[j]).schema@,
        )
    &&& forall|i: int|
        0 <= i < tables.len() ==> identity_order(
            (#[trigger] tables[i]).display_order@,
            tables[i].rows@.len() as int,
        )
    &&& forall|i: int| 0 <= i < tables.len() ==> target_in_table(#[trigger] tables[i])
}

/// The table's default write target, if it has one, is one of its sources.
pub open spec fn target_in_table(table: LogicalTable) -> bool {
    match table.default_write_target {
        Some(target) => texts(table.source_ids@).contains(target@),
        None => true,
    }
}

/// Whether some table has exactly this header.
pub open spec fn has_schema(tables: Seq<LogicalTable>, schema: Seq<Seq<char>>) -> bool {
    exists|i: int| #![trigger tables[i]] 0 <= i < tables.len() && texts(tables[i].schema@) == schema
}

/// The table with this header, or the position a new one takes.
pub open spec fn schema_index(tables: Seq<LogicalTable>, schema: Seq<Seq<char>>) -> int {
    if has_schema(tables, schema) {
        choose|i: int| #![trigger tables[i]] 0 <= i < tables.len() && texts(tables[i].schema@) == schema
    } else {
        tables.len() as int
    }
}

/// `row` is data record `k` of a file read from source `source_id` at `path`.
pub open spec fn row_from(row: LogicalRow, record: Seq<Seq<char>>, source_id: Seq<char>, path: Seq<char>, k: int) -> bool {
    &&& texts(row.values@) == record
    &&& row.origin.source_id@ == source_id
    &&& row.origin.path@ == path
    &&& row.origin.record_index == k
}

/// `after` is `before` with the records of one file (its header first) read from
/// source `source_id` at `path` added: its data records join, in order, the table with
/// exactly its header (a new table, last, when there is none), each with where it came
/// from, and the source joins that table's sources.
pub open spec fn file_added(
    before: Seq<LogicalTable>,
    after: Seq<LogicalTable>,
    source_id: Seq<char>,
    path: Seq<char>,
    records: Seq<Seq<Seq<char>>>,
) -> bool {
    let schema = records[0];
    let t = schema_index(before, schema);
    let kept = if t < before.len() {
        before[t].rows@.len() as int
    } else {
        0
    };
    &&& after.len() == if t < before.len() {
        before.len() as int
    } else {
        before.len() + 1int
    }
    &&& forall|i: int| 0 <= i < before.len() && i != t ==> #[trigger] after[i] == before[i]
    &&& texts(after[t].schema@) == schema
    &&& texts(after[t].source_ids@) == if t < before.len() {
        if texts(before[t].source_ids@).contains(source_id) {
            texts(before[t].source_ids@)
        } else {
            texts(before[t].source_ids@).push(source_id)
        }
    } else {
        seq![source_id]
    }
    &&& after[t].default_write_target == if t < before.len() {
        before[t].default_write_target
    } else {
        None
    }
    &&& after[t].rows@.len() == kept + records.len() - 1
    &&& forall|r: int| 0 <= r < kept ==> #[trigger] after[t].rows@[r] == before[t].rows@[r]
    &&& forall|k: int|
        0 <= k < records.len() - 1 ==> row_from(
            #[trigger] after[t].rows@[kept + k],
            records[k + 1],
            source_id,
            path,
            k,
        )
}

fn copy_texts(values: &Vec<String>) -> (copy: Vec<String>)
    ensures
        texts(copy@) == texts(values@),
{
    let mut copy: Vec<String> = Vec::new();
    let mut index: usize = 0;
    while index < values.len()
        invariant
            index <= values@.len(),
            texts(copy@) == texts(values@.take(index as int)),
        decreases values@.len() - index,
    {
        let value = values[index].clone();
        assert(value@ == values@[index as int]@);
        let ghost before = copy@;
        copy.push(value);
        assert(values@.take(index + 1) =~= values@.take(index as int).push(values@[index as int]));
        assert(texts(before.push(value)) =~= texts(before).push(value@));
        assert(texts(values@.take(index as int).push(values@[index as int])) =~= texts(
            values@.take(index as int),
        ).push(values@[index as int]@));
        assert(texts(copy@) =~= texts(values@.take(index + 1)));
        index += 1;
    }
    assert(values@.take(index as int) =~= values@);
    copy
}

fn texts_equal(a: &Vec<String>, b: &Vec<String>) -> (equal: bool)
    ensures
        equal == (texts(a@) == texts(b@)),
{
    if a.len() != b.len() {
        assert(texts(a@).len() != texts(b@).len());
        return false;
    }
    let mut index: usize = 0;
    while index < a.len()
        invariant
            a@.len() == b@.len(),
            index <= a@.len(),
            forall|k: int| 0 <= k < index ==> (#[trigger] a@[k])@ == b@[k]@,
        decreases a@.len() - index,
    {
        if !str_equal(a[index].as_str(), b[index].as_str()) {
            assert(texts(a@)[index as int] != texts(b@)[index as int]);
            return false;
        }
        index += 1;
    }
    assert(texts(a@) =~= texts(b@));
    true
}

fn contains_text(values: &Vec<String>, text: &str) -> (found: bool)
    ensures
        found == texts(values@).contains(text@),
{
    let mut index: usize = 0;
    while index < values.len()
        invariant
            index <= values@.len(),
            forall|k: int| 0 <= k < index ==> (#[trigger] values@[k])@ != text@,
        decreases values@.len() - index,
    {
        if str_equal(values[index].as_str(), text) {
            assert(texts(values@)[index as int] == text@);
            return true;
        }
        index += 1;
    }
    assert(forall|k: int| 0 <= k < values@.len() ==> #[trigger] texts(values@)[k] != text@);
    false
}

fn identity(count: usize) -> (order: Vec<usize>)
    ensures
        identity_order(order@, count as int),
{
    let mut order: Vec<usize> = Vec::new();
    let mut index: usize = 0;
    while index < count
        invariant
            index <= count,
            identity_order(order@, index as int),
        decreases count - index,
    {
        order.push(index);
        index += 1;
    }
    order
}

proof fn lemma_schema_index_at(tables: Seq<LogicalTable>, schema: Seq<Seq<char>>, i: int)
    requires
        tables_wf(tables),
        0 <= i < tables.len(),
        texts(tables[i].schema@) == schema,
    ensures
        schema_index(tables, schema) == i,
{
    assert(has_schema(tables, schema));
    let k = schema_index(tables, schema);
    if k < i {
        assert(texts(tables[k].schema@) != texts(tables[i].schema@));
    } else if k > i {
        assert(texts(tables[i].schema@) != texts(tables[k].schema@));
    }
}

impl LogicalProject {
    /// No tables.
    pub fn new() -> (project: Self)
        ensures
            project.tables@.len() == 0,
            tables_wf(project.tables@),
    {
        LogicalProject { tables: Vec::new() }
    }

    /// Adds the records of one CSV file read from source `source_id` at `path`: its first
    /// record is its header, and its data records join the table with exactly that header
    /// (a new table, last, when there is none). A file without any record is refused.
    pub fn add_file(&mut self, source_id: &str, path: &str, records: &Vec<Vec<String>>) -> (result:
        Result<(), LogicalLoadError>)
        requires
            tables_wf(old(self).tables@),
        ensures
            tables_wf(final(self).tables@),
            match result {
                Err(LogicalLoadError::MissingHeader(name)) => {
                    &&& records@.len() == 0
                    &&& name@ == path@
                    &&& final(self).tables@ == old(self).tables@
                },
                Err(_) => false,
                Ok(()) => records@.len() > 0 && file_added(
                    old(self).tables@,
                    final(self).tables@,
                    source_id@,
                    path@,
                    records@.map_values(|record: Vec<String>| texts(record@)),
                ),
            },
    {
        if records.len() == 0 {
            return Err(LogicalLoadError::MissingHeader(String::from_str(path)));
        }
        let header = &records[0];
        let ghost schema = texts(header@);
        let ghost before = self.tables@;
        let count = self.tables.len();
        let mut t: usize = 0;
        let mut found = false;
        while !found && t < count
            invariant
                t <= count == self.tables@.len(),
                self.tables@ == before,
                schema == texts(header@),
                forall|i: int| 0 <= i < t ==> texts((#[trigger] before[i]).schema@) != schema,
                found ==> t < count && texts(before[t as int].schema@) == schema,
            decreases count - t + if found {
                0int
            } else {
                1int
            },
        {
            let table = &self.tables[t];
            assert(*table == before[t as int]);
            let same = texts_equal(&table.schema, header);
            assert(same == (texts(before[t as int].schema@) == schema));
            if same {
                found = true;
            } else {
                t += 1;
            }
        }
        let mut table = if found {
            proof {
                lemma_schema_index_at(before, schema, t as int);
                assert(target_in_table(before[t as int]));
            }
            self.tables.remove(t)
        } else {
            assert(!has_schema(before, schema));
            LogicalTable {
                schema: copy_texts(header),
                display_order: Vec::new(),
                rows: Vec::new(),
                source_ids: Vec::new(),
                default_write_target: None,
            }
        };
        let ghost ids_before = texts(table.source_ids@);
        let ghost target_before = table.default_write_target;
        if !contains_text(&table.source_ids, source_id) {
            table.source_ids.push(String::from_str(source_id));
            assert(texts(table.source_ids@) =~= ids_before.push(source_id@));
        }
        let ghost kept = table.rows@.len() as int;
        let ghost kept_rows = table.rows@;
        let mut k: usize = 1;
        while k < records.len()
            invariant
                1 <= k <= records@.len(),
                kept_rows.len() == kept,
                texts(table.schema@) == schema,
                texts(table.source_ids@) == if ids_before.contains(source_id@) {
                    ids_before
                } else {
                    ids_before.push(source_id@)
                },
                table.default_write_target == target_before,
                target_before matches Some(target) ==> ids_before.contains(target@),
                table.rows@.len() == kept + k - 1,
                forall|r: int| 0 <= r < kept ==> #[trigger] table.rows@[r] == kept_rows[r],
                forall|j: int|
                    0 <= j < k - 1 ==> row_from(
                        #[trigger] table.rows@[kept + j],
                        texts(records@[j + 1]@),
                        source_id@,
                        path@,
                        j,
                    ),
            decreases records@.len() - k,
        {
            let values = copy_texts(&records[k]);
            let row = LogicalRow {
                values,
                origin: SourceRecord {
                    source_id: String::from_str(source_id),
                    path: String::from_str(path),
                    record_index: k - 1,
                },
            };
            assert(row_from(row, texts(records@[k as int]@), source_id@, path@, k - 1));
            let ghost previous = table.rows@;
            table.rows.push(row);
            assert(table.rows@ == previous.push(row));
            k += 1;
        }
        table.display_order = identity(table.rows.len());
        let ghost finished = table;
        self.tables.insert(t, table);
        proof {
            let after = self.tables@;
            assert(after[t as int] == finished);
            assert forall|i: int| 0 <= i < before.len() && i != t implies #[trigger] after[i] == before[i] by {
                if t < count {
                    assert(after =~= before.update(t as int, finished));
                }
            }
            if t < count {
                assert(after =~= before.update(t as int, finished));
            } else {
                assert(after =~= before.push(finished));
            }
            assert forall|i: int, j: int| 0 <= i < j < after.len() implies texts(
                (#[trigger] after[i]).schema@,
            ) != texts((#[trigger] after[j]).schema@) by {
                if i != t && j != t {
                    assert(after[i] == before[i] && after[j] == before[j]);
                } else if i == t {
                    assert(after[j] == before[j]);
                } else {
                    assert(after[i] == before[i]);
                }
            }
            assert forall|i: int| 0 <= i < after.len() implies identity_order(
                (#[trigger] after[i]).display_order@,
                after[i].rows@.len() as int,
            ) by {
                if i != t {
                    assert(after[i] == before[i]);
                }
            }
            assert forall|i: int| 0 <= i < after.len() implies target_in_table(#[trigger] after[i]) by {
                if i != t {
                    assert(after[i] == before[i]);
                } else if let Some(target) = finished.default_write_target {
                    assert(ids_before.contains(target@));
                    if !ids_before.contains(source_id@) {
                        assert(ids_before.push(source_id@).contains(target@)) by {
                            let k = choose|k: int| 0 <= k < ids_before.len() && ids_before[k] == target@;
                            assert(ids_before.push(source_id@)[k] == target@);
                        }
                    }
                }
            }
        }
        proof {
            if t < count {
                assert(ids_before == texts(before[t as int].source_ids@));
            } else {
                assert(ids_before =~= Seq::<Seq<char>>::empty());
                assert(ids_before.push(source_id@) =~= seq![source_id@]);
            }
            let view = records@.map_values(|record: Vec<String>| texts(record@));
            assert(view[0] == schema);
            assert forall|k: int| 0 <= k < records@.len() - 1 implies #[trigger] view[k + 1] == texts(
                records@[k + 1]@,
            ) by {}
        }
        Ok(())
    }

    /// Adds one CSV file from its bytes (see `add_file`); bytes that do not open as CSV
    /// are refused with the reason.
    pub fn add_csv_file(&mut self, source_id: &str, path: &str, bytes: &[u8]) -> (result: Result<
        (),
        LogicalLoadError,
    >)
        requires
            tables_wf(old(self).tables@),
            bytes@.len() <= usize::MAX / 4,
        ensures
            tables_wf(final(self).tables@),
            match result {
                Ok(()) => decoded_text(bytes@) matches Some((text, _)) && csv_records(text) matches Some(
                    records,
                ) && records.len() > 0 && file_added(
                    old(self).tables@,
                    final(self).tables@,
                    source_id@,
                    path@,
                    records,
                ),
                Err(LogicalLoadError::MissingHeader(name)) => {
                    &&& decoded_text(bytes@) matches Some((text, _))
                    &&& csv_records(text) == Some(Seq::<Seq<Seq<char>>>::empty())
                    &&& name@ == path@
                    &&& final(self).tables@ == old(self).tables@
                },
                Err(LogicalLoadError::Csv { path: name, .. }) => {
                    &&& (decoded_text(bytes@) is None || (decoded_text(bytes@) matches Some((text, _))
                        && csv_records(text) is None))
                    &&& name@ == path@
                    &&& final(self).tables@ == old(self).tables@
                },
                Err(_) => false,
            },
    {
        let document = match CsvDocument::open_bytes(String::from_str(path), bytes) {
            Ok(document) => document,
            Err(error) => {
                return Err(
                    LogicalLoadError::Csv { path: String::from_str(path), message: error.to_string() },
                );
            },
        };
        let rows = document.rows();
        proof {
            assert forall|i: int| 0 <= i < rows@.len() implies #[trigger] rows.deep_view()[i]
                == texts(rows@[i]@) by {
                assert(rows.deep_view()[i] =~= texts(rows@[i]@));
            }
            assert(rows@.map_values(|record: Vec<String>| texts(record@)) =~= rows.deep_view());
        }
        self.add_file(source_id, path, rows)
    }
}

/// A default write target that is not one of the table's sources.
#[derive(Debug, Clone, PartialEq, Eq)]
pub struct NotATableSource(pub String);

impl NotATableSource {
    /// The refusal's message.
    pub fn to_string(&self) -> (text: String)
        ensures
            text@ == "source `"@ + self.0@ + "` does not take part in this logical table"@,
    {
        let mut text = String::from_str("source `");
        text.append(self.0.as_str());
        text.append("` does not take part in this logical table");
        text
    }
}

impl LogicalTable {
    /// Names the source that writes go to by default; only a source whose files joined
    /// this table is accepted, and a refused one leaves the table as it was.
    pub fn set_default_write_target(&mut self, source_id: &str) -> (result: Result<
        (),
        NotATableSource,
    >)
        requires
            target_in_table(*old(self)),
        ensures
            target_in_table(*final(self)),
            final(self).schema == old(self).schema,
            final(self).rows == old(self).rows,
            final(self).display_order == old(self).display_order,
            final(self).source_ids == old(self).source_ids,
            match result {
                Ok(()) => {
                    &&& texts(old(self).source_ids@).contains(source_id@)
                    &&& final(self).default_write_target matches Some(target)
                    &&& target@ == source_id@
                },
                Err(NotATableSource(name)) => !texts(old(self).source_ids@).contains(source_id@)
                    && name@ == source_id@ && final(self).default_write_target == old(
                    self,
                ).default_write_target,
            },
    {
        if !contains_text(&self.source_ids, source_id) {
            return Err(NotATableSource(String::from_str(source_id)));
        }
        self.default_write_target = Some(String::from_str(source_id));
        Ok(())
    }
}

/// The name of the last part of a path (`Path::file_name`): `.` parts are skipped, and
/// a path that ends in `..` has none.
pub open spec fn file_name_of(segments: Seq<Seq<char>>) -> Option<Seq<char>>
    decreases segments.len(),
{
    if segments.len() == 0 {
        None
    } else if segments.last() == "."@ {
        file_name_of(segments.drop_last())
    } else if segments.last() == ".."@ {
        None
    } else {
        Some(segments.last())
    }
}

/// The index of the last `.` in a name, or -1.
pub open spec fn last_dot(name: Seq<char>) -> int
    decreases name.len(),
{
    if name.len() == 0 {
        -1
    } else if name.last() == '.' {
        name.len() - 1
    } else {
        last_dot(name.drop_last())
    }
}

/// Whether a path names a `.csv` file, the extension in any ASCII case (a name that only
/// begins with a dot has no extension).
pub open spec fn is_csv_path(path: Seq<char>) -> bool {
    match file_name_of(path_segments(path)) {
        None => false,
        Some(name) => {
            let dot = last_dot(name);
            dot > 0 && eq_ci(name.subrange(dot + 1, name.len() as int), "csv"@)
        },
    }
}

/// Whether a path names a `.csv` file (see `is_csv_path`).
pub fn is_csv(path: &str) -> (csv: bool)
    ensures
        csv == is_csv_path(path@),
{
    let segments = crate::project::split_path(path);
    let ghost parts = path_segments(path@);
    let mut end = segments.len();
    assert(parts.take(end as int) =~= parts);
    while end > 0 && str_equal(segments[end - 1].as_str(), ".")
        invariant
            end <= segments@.len() == parts.len(),
            parts == segments@.map_values(|segment: String| segment@),
            file_name_of(parts) == file_name_of(parts.take(end as int)),
        decreases end,
    {
        assert(parts.take(end as int).drop_last() =~= parts.take(end - 1));
        end -= 1;
    }
    if end == 0 {
        return false;
    }
    assert(parts.take(end as int).last() == segments@[end - 1]@);
    if str_equal(segments[end - 1].as_str(), "..") {
        return false;
    }
    let name = chars_of(segments[end - 1].as_str());
    let ghost whole = segments@[end - 1]@;
    let mut dot = name.len();
    assert(whole.take(dot as int) =~= whole);
    while dot > 0 && name[dot - 1] != '.'
        invariant
            dot <= name@.len(),
            name@ == whole,
            last_dot(whole) == last_dot(whole.take(dot as int)),
        decreases dot,
    {
        assert(whole.take(dot as int).drop_last() =~= whole.take(dot - 1));
        dot -= 1;
    }
    if dot <= 1 {
        assert(dot == 1 ==> whole.take(1).last() == '.');
        return false;
    }
    let dot = dot - 1;
    assert(whole.take(dot + 1).last() == '.');
    let extension_length = name.len() - dot - 1;
    if extension_length != 3 {
        proof {
            reveal_strlit("csv");
        }
        assert(lower_seq(whole.subrange(dot + 1, whole.len() as int)).len() != lower_seq("csv"@).len());
        return false;
    }
    let a = to_ascii_lower(name[dot + 1]);
    let b = to_ascii_lower(name[dot + 2]);
    let c = to_ascii_lower(name[dot + 3]);
    proof {
        reveal_strlit("csv");
        let extension = whole.subrange(dot + 1, whole.len() as int);
        assert(extension[0] == name@[dot + 1]);
        assert(extension[1] == name@[dot + 2]);
        assert(extension[2] == name@[dot + 3]);
        if a == 'c' && b == 's' && c == 'v' {
            assert(lower_seq(extension) =~= lower_seq("csv"@));
        } else {
            assert(lower_seq(extension)[0] == a && lower_seq(extension)[1] == b && lower_seq(extension)[2] == c);
            assert(lower_seq("csv"@)[0] == 'c' && lower_seq("csv"@)[1] == 's' && lower_seq("csv"@)[2] == 'v');
        }
    }
    a == 'c' && b == 's' && c == 'v'
}

/// The parts a path is compared by (`Path::components`): the root, a leading `.`, then
/// `..` and names, each as a rank (root, `.`, `..`, name) and a name.
pub open spec fn named_components(segments: Seq<Seq<char>>) -> Seq<(int, Seq<char>)>
    decreases segments.len(),
{
    if segments.len() == 0 {
        seq![]
    } else {
        let rest = named_components(segments.drop_last());
        if segments.last() == "."@ {
            rest
        } else if segments.last() == ".."@ {
            rest.push((2, seq![]))
        } else {
            rest.push((3, segments.last()))
        }
    }
}

/// The components of a path (see `named_components`).
pub open spec fn path_components(path: Seq<char>) -> Seq<(int, Seq<char>)> {
    let segments = path_segments(path);
    let root: Seq<(int, Seq<char>)> = if is_absolute_path(path) {
        seq![(0, seq![])]
    } else {
        seq![]
    };
    let lead: Seq<(int, Seq<char>)> = if !is_absolute_path(path) && segments.len() > 0
        && segments[0] == "."@ {
        seq![(1, seq![])]
    } else {
        seq![]
    };
    root + lead + named_components(segments)
}

/// The order of two components: by rank, then by name.
pub open spec fn component_order(a: (int, Seq<char>), b: (int, Seq<char>)) -> int {
    if a.0 < b.0 {
        -1
    } else if a.0 > b.0 {
        1
    } else {
        text_order(a.1, b.1)
    }
}

/// The order of two component lists, part by part (`Path::cmp`).
pub open spec fn components_order(a: Seq<(int, Seq<char>)>, b: Seq<(int, Seq<char>)>) -> int
    decreases a.len(),
{
    if a.len() == 0 && b.len() == 0 {
        0
    } else if a.len() == 0 {
        -1
    } else if b.len() == 0 {
        1
    } else if component_order(a[0], b[0]) != 0 {
        component_order(a[0], b[0])
    } else {
        components_order(a.drop_first(), b.drop_first())
    }
}

/// The order of two paths (see `components_order`).
pub open spec fn path_order(a: Seq<char>, b: Seq<char>) -> int {
    components_order(path_components(a), path_components(b))
}

proof fn lemma_component_order(a: (int, Seq<char>), b: (int, Seq<char>), c: (int, Seq<char>))
    ensures
        component_order(a, b) == -component_order(b, a),
        component_order(a, b) == 0 ==> a == b,
        component_order(a, b) <= 0 && component_order(b, c) <= 0 ==> component_order(a, c) <= 0,
        component_order(a, b) < 0 && component_order(b, c) <= 0 ==> component_order(a, c) < 0,
        component_order(a, b) <= 0 && component_order(b, c) < 0 ==> component_order(a, c) < 0,
{
    lemma_text_order_antisymmetric(a.1, b.1);
    lemma_text_order_zero(a.1, b.1);
    lemma_text_order_zero(b.1, c.1);
    lemma_text_order_zero(a.1, c.1);
    if text_order(a.1, b.1) < 0 && text_order(b.1, c.1) < 0 {
        lemma_text_order_transitive(a.1, b.1, c.1);
    }
    lemma_text_order_antisymmetric(a.1, c.1);
    lemma_text_order_antisymmetric(b.1, c.1);
}

proof fn lemma_components_order(
    a: Seq<(int, Seq<char>)>,
    b: Seq<(int, Seq<char>)>,
    c: Seq<(int, Seq<char>)>,
)
    ensures
        components_order(a, b) == -components_order(b, a),
        -1 <= components_order(a, b) <= 1,
        components_order(a, b) <= 0 && components_order(b, c) <= 0 ==> components_order(a, c) <= 0,
        components_order(a, b) < 0 && components_order(b, c) <= 0 ==> components_order(a, c) < 0,
    decreases a.len(),
{
    if a.len() > 0 && b.len() > 0 {
        lemma_component_order(a[0], b[0], a[0]);
        if c.len() > 0 {
            lemma_component_order(a[0], b[0], c[0]);
            lemma_component_order(b[0], c[0], a[0]);
            lemma_component_order(a[0], c[0], b[0]);
            lemma_components_order(a.drop_first(), b.drop_first(), c.drop_first());
        } else {
            lemma_components_order(a.drop_first(), b.drop_first(), c);
        }
        let ab = component_order(a[0], b[0]);
        assert(-1 <= ab <= 1) by {
            lemma_text_order_bounds(a[0].1, b[0].1);
        }
    }
}

proof fn lemma_text_order_bounds(a: Seq<char>, b: Seq<char>)
    ensures
        -1 <= text_order(a, b) <= 1,
    decreases a.len(),
{
    if a.len() > 0 && b.len() > 0 && a[0] == b[0] {
        lemma_text_order_bounds(a.drop_first(), b.drop_first());
    }
}

/// `paths` are in `path_order`, ties kept in their order.
pub open spec fn paths_sorted(paths: Seq<Seq<char>>) -> bool {
    forall|i: int, j: int|
        0 <= i < j < paths.len() ==> path_order(#[trigger] paths[i], #[trigger] paths[j]) <= 0
}

pub(crate) fn components_of(path: &String) -> (parts: Vec<(u8, String)>)
    ensures
        parts@.map_values(|part: (u8, String)| (part.0 as int, part.1@)) == path_components(path@),
{
    let segments = crate::project::split_path(path.as_str());
    let ghost all = path_segments(path@);
    let mut parts: Vec<(u8, String)> = Vec::new();
    let chars = chars_of(path.as_str());
    let absolute = chars.len() > 0 && chars[0] == '/';
    proof {
        assert(absolute == crate::project::is_absolute_path(path@));
    }
    if absolute {
        parts.push((0u8, String::new()));
    } else if segments.len() > 0 && str_equal(segments[0].as_str(), ".") {
        assert(all[0] == segments@[0]@);
        parts.push((1u8, String::new()));
    }
    let ghost head = parts@.map_values(|part: (u8, String)| (part.0 as int, part.1@));
    proof {
        if !absolute && segments@.len() > 0 {
            assert(all[0] == segments@[0]@);
        }
        assert(head + named_components(all.take(0)) =~= head);
    }
    let mut index: usize = 0;
    while index < segments.len()
        invariant
            index <= segments@.len() == all.len(),
            all == segments@.map_values(|segment: String| segment@),
            parts@.map_values(|part: (u8, String)| (part.0 as int, part.1@)) == head
                + named_components(all.take(index as int)),
        decreases segments@.len() - index,
    {
        let ghost before = parts@.map_values(|part: (u8, String)| (part.0 as int, part.1@));
        assert(all.take(index + 1).drop_last() =~= all.take(index as int));
        assert(all.take(index + 1).last() == segments@[index as int]@);
        if str_equal(segments[index].as_str(), ".") {
        } else if str_equal(segments[index].as_str(), "..") {
            parts.push((2u8, String::new()));
            assert(parts@.map_values(|part: (u8, String)| (part.0 as int, part.1@)) =~= before.push(
                (2int, Seq::<char>::empty()),
            ));
            assert(before.push((2int, Seq::<char>::empty())) =~= head + named_components(
                all.take(index + 1),
            ));
        } else {
            parts.push((3u8, segments[index].clone()));
            assert(parts@.map_values(|part: (u8, String)| (part.0 as int, part.1@)) =~= before.push(
                (3int, segments@[index as int]@),
            ));
            assert(before.push((3int, segments@[index as int]@)) =~= head + named_components(
                all.take(index + 1),
            ));
        }
        index += 1;
    }
    assert(all.take(index as int) =~= all);
    proof {
        let root: Seq<(int, Seq<char>)> = if absolute {
            seq![(0, seq![])]
        } else {
            seq![]
        };
        let lead: Seq<(int, Seq<char>)> = if !absolute && all.len() > 0 && all[0] == "."@ {
            seq![(1, seq![])]
        } else {
            seq![]
        };
        assert(head =~= root + lead);
    }
    parts
}

fn compare_components(a: &Vec<(u8, String)>, b: &Vec<(u8, String)>) -> (order: i8)
    ensures
        order as int == components_order(
            a@.map_values(|part: (u8, String)| (part.0 as int, part.1@)),
            b@.map_values(|part: (u8, String)| (part.0 as int, part.1@)),
        ),
{
    let ghost x = a@.map_values(|part: (u8, String)| (part.0 as int, part.1@));
    let ghost y = b@.map_values(|part: (u8, String)| (part.0 as int, part.1@));
    let mut index: usize = 0;
    assert(x.skip(0) =~= x);
    assert(y.skip(0) =~= y);
    while index < a.len() && index < b.len()
        invariant
            index <= a@.len(),
            index <= b@.len(),
            x == a@.map_values(|part: (u8, String)| (part.0 as int, part.1@)),
            y == b@.map_values(|part: (u8, String)| (part.0 as int, part.1@)),
            components_order(x, y) == components_order(x.skip(index as int), y.skip(index as int)),
        decreases a@.len() - index,
    {
        let ghost sx = x.skip(index as int);
        let ghost sy = y.skip(index as int);
        assert(sx[0] == x[index as int]);
        assert(sy[0] == y[index as int]);
        let order = if a[index].0 < b[index].0 {
            -1i8
        } else if a[index].0 > b[index].0 {
            1i8
        } else {
            crate::rowly_dsl::value::compare_text(a[index].1.as_str(), b[index].1.as_str())
        };
        assert(order as int == component_order(sx[0], sy[0]));
        if order != 0 {
            return order;
        }
        assert(sx.drop_first() =~= x.skip(index + 1));
        assert(sy.drop_first() =~= y.skip(index + 1));
        index += 1;
    }
    let ghost sx = x.skip(index as int);
    let ghost sy = y.skip(index as int);
    if index == a.len() && index == b.len() {
        assert(sx.len() == 0 && sy.len() == 0);
        0
    } else if index == a.len() {
        assert(sx.len() == 0 && sy.len() > 0);
        -1
    } else {
        assert(sx.len() > 0 && sy.len() == 0);
        1
    }
}

/// The paths in `path_order` (the order `Path::cmp` gives), equal paths kept in their
/// order: the same paths, each as often as before.
pub fn sort_paths(paths: &Vec<String>) -> (sorted: Vec<String>)
    ensures
        paths_sorted(texts(sorted@)),
        texts(sorted@).to_multiset() == texts(paths@).to_multiset(),
{
    broadcast use vstd::seq_lib::group_to_multiset_ensures;

    let mut sorted: Vec<String> = Vec::new();
    let mut keys: Vec<Vec<(u8, String)>> = Vec::new();
    let mut index: usize = 0;
    while index < paths.len()
        invariant
            index <= paths@.len(),
            keys@.len() == sorted@.len(),
            forall|k: int|
                0 <= k < keys@.len() ==> (#[trigger] keys@[k])@.map_values(
                    |part: (u8, String)| (part.0 as int, part.1@),
                ) == path_components(sorted@[k]@),
            paths_sorted(texts(sorted@)),
            texts(sorted@).to_multiset() == texts(paths@.take(index as int)).to_multiset(),
        decreases paths@.len() - index,
    {
        let path = paths[index].clone();
        assert(path@ == paths@[index as int]@);
        let key = components_of(&path);
        let mut position: usize = 0;
        while position < sorted.len() && compare_components(&keys[position], &key) <= 0
            invariant
                position <= sorted@.len() == keys@.len(),
                forall|k: int|
                    0 <= k < keys@.len() ==> (#[trigger] keys@[k])@.map_values(
                        |part: (u8, String)| (part.0 as int, part.1@),
                    ) == path_components(sorted@[k]@),
                key@.map_values(|part: (u8, String)| (part.0 as int, part.1@)) == path_components(
                    path@,
                ),
                forall|k: int| 0 <= k < position ==> path_order(#[trigger] sorted@[k]@, path@) <= 0,
            decreases sorted@.len() - position,
        {
            position += 1;
        }
        let ghost before = texts(sorted@);
        proof {
            assert forall|i: int, j: int|
                0 <= i < j < before.len() + 1 implies path_order(
                #[trigger] before.insert(position as int, path@)[i],
                #[trigger] before.insert(position as int, path@)[j],
            ) <= 0 by {
                let next = before.insert(position as int, path@);
                if j < position {
                    assert(next[i] == before[i] && next[j] == before[j]);
                } else if j == position {
                    assert(next[i] == before[i]);
                    assert(before[i] == sorted@[i]@);
                } else if i == position {
                    assert(next[j] == before[j - 1]);
                    assert(position < before.len());
                    let bigger = sorted@[position as int]@;
                    assert(path_order(bigger, path@) > 0);
                    lemma_components_order(
                        path_components(path@),
                        path_components(bigger),
                        path_components(before[j - 1]),
                    );
                    if j - 1 > position {
                        assert(path_order(bigger, before[j - 1]) <= 0);
                    }
                } else if i < position {
                    assert(next[i] == before[i] && next[j] == before[j - 1]);
                } else {
                    assert(next[i] == before[i - 1] && next[j] == before[j - 1]);
                }
            }
        }
        sorted.insert(position, path);
        keys.insert(position, key);
        proof {
            assert(texts(sorted@) =~= before.insert(position as int, paths@[index as int]@));
            assert(paths@.take(index + 1) =~= paths@.take(index as int).push(paths@[index as int]));
            assert(texts(paths@.take(index + 1)) =~= texts(paths@.take(index as int)).push(
                paths@[index as int]@,
            ));
            vstd::seq_lib::to_multiset_insert(before, position as int, paths@[index as int]@);
            vstd::seq_lib::to_multiset_build(texts(paths@.take(index as int)), paths@[index as int]@);
            assert forall|k: int| 0 <= k < keys@.len() implies (#[trigger] keys@[k])@.map_values(
                |part: (u8, String)| (part.0 as int, part.1@),
            ) == path_components(sorted@[k]@) by {}
        }
        index += 1;
    }
    assert(paths@.take(index as int) =~= paths@);
    sorted
}

} // verus!
