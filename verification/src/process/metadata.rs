//! Column type declarations kept beside a CSV file, in its `<csv>.rowly.json` sidecar.
//! The sidecar is auxiliary: the CSV alone is the table, and a missing or broken
//! sidecar never stops the CSV from opening.

use vstd::prelude::*;

use crate::json::{
    member_value, json_field, json_members, json_text, json_u64, members_field, text_field, u64_field,
    JsonNumber, JsonValue,
};
use crate::process::column::ColumnType;
use crate::process::document::str_equal;
use crate::rowly_dsl::value::{
    compare_text, lemma_text_order_antisymmetric, lemma_text_order_transitive,
    lemma_text_order_zero, text_order,
};
use crate::text::{decimal_digits, push_decimal_digits, string_of};

verus! {

/// The sidecar format version that is read and written.
pub const METADATA_VERSION: u64 = 1;

/// Why a sidecar could not be read, understood or written.
#[derive(Debug, Clone, PartialEq, Eq)]
pub enum MetadataError {
    Read { path: String, message: String },
    Parse { path: String, message: String },
    Schema(String),
    Write { path: String, message: String },
}

/// The message of a metadata error.
pub open spec fn metadata_message(error: MetadataError) -> Seq<char> {
    match error {
        MetadataError::Read { path, message } => "failed to read Rowly metadata `"@ + path@ + "`: "@
            + message@,
        MetadataError::Parse { path, message } => "failed to parse Rowly metadata `"@ + path@
            + "`: "@ + message@,
        MetadataError::Schema(message) => "invalid Rowly metadata schema: "@ + message@,
        MetadataError::Write { path, message } => "failed to write Rowly metadata `"@ + path@
            + "`: "@ + message@,
    }
}

impl MetadataError {
    /// The error's message (see `metadata_message`).
    pub fn to_string(&self) -> (text: String)
        ensures
            text@ == metadata_message(*self),
    {
        match self {
            MetadataError::Read { path, message } => {
                let mut text = String::from_str("failed to read Rowly metadata `");
                text.append(path.as_str());
                text.append("`: ");
                text.append(message.as_str());
                text
            },
            MetadataError::Parse { path, message } => {
                let mut text = String::from_str("failed to parse Rowly metadata `");
                text.append(path.as_str());
                text.append("`: ");
                text.append(message.as_str());
                text
            },
            MetadataError::Schema(message) => {
                let mut text = String::from_str("invalid Rowly metadata schema: ");
                text.append(message.as_str());
                text
            },
            MetadataError::Write { path, message } => {
                let mut text = String::from_str("failed to write Rowly metadata `");
                text.append(path.as_str());
                text.append("`: ");
                text.append(message.as_str());
                text
            },
        }
    }
}

/// The sidecar of a CSV file: its path with `.rowly.json` appended (the CSV extension
/// stays).
pub fn sidecar_path(csv_path: &str) -> (path: String)
    ensures
        path@ == csv_path@ + ".rowly.json"@,
{
    let mut path = String::from_str(csv_path);
    path.append(".rowly.json");
    path
}

/// The name a column type is written under.
pub open spec fn metadata_type_name(column_type: ColumnType) -> Seq<char> {
    match column_type {
        ColumnType::String => "String"@,
        ColumnType::Integer => "Integer"@,
        ColumnType::Decimal => "Decimal"@,
        ColumnType::Boolean => "Boolean"@,
    }
}

/// The column type written under `name`, if any.
pub open spec fn type_named(name: Seq<char>) -> Option<ColumnType> {
    if name == "String"@ {
        Some(ColumnType::String)
    } else if name == "Integer"@ {
        Some(ColumnType::Integer)
    } else if name == "Decimal"@ {
        Some(ColumnType::Decimal)
    } else if name == "Boolean"@ {
        Some(ColumnType::Boolean)
    } else {
        None
    }
}

impl ColumnType {
    /// The name this type is written under.
    pub fn as_metadata_str(self) -> (name: &'static str)
        ensures
            name@ == metadata_type_name(self),
    {
        match self {
            ColumnType::String => "String",
            ColumnType::Integer => "Integer",
            ColumnType::Decimal => "Decimal",
            ColumnType::Boolean => "Boolean",
        }
    }

    /// The type written under `name`; names are matched exactly.
    pub fn from_metadata_str(name: &str) -> (column_type: Option<ColumnType>)
        ensures
            column_type == type_named(name@),
    {
        if str_equal(name, "String") {
            Some(ColumnType::String)
        } else if str_equal(name, "Integer") {
            Some(ColumnType::Integer)
        } else if str_equal(name, "Decimal") {
            Some(ColumnType::Decimal)
        } else if str_equal(name, "Boolean") {
            Some(ColumnType::Boolean)
        } else {
            None
        }
    }
}

/// Reading back the name a type is written under gives the type.
pub proof fn lemma_type_name_round_trip(column_type: ColumnType)
    ensures
        type_named(metadata_type_name(column_type)) == Some(column_type),
{
    reveal_strlit("String");
    reveal_strlit("Integer");
    reveal_strlit("Decimal");
    reveal_strlit("Boolean");
    assert("String"@[0] != "Integer"@[0]);
    assert("String"@[0] != "Decimal"@[0]);
    assert("String"@[0] != "Boolean"@[0]);
    assert("Integer"@[0] != "Decimal"@[0]);
    assert("Integer"@[0] != "Boolean"@[0]);
    assert("Decimal"@[0] != "Boolean"@[0]);
}

/// Headers in strictly increasing text order (so each occurs once).
pub open spec fn strictly_ordered(entries: Seq<(Seq<char>, ColumnType)>) -> bool {
    forall|i: int, j: int|
        0 <= i < j < entries.len() ==> text_order(#[trigger] entries[i].0, #[trigger] entries[j].0)
            < 0
}

/// Whether `header` is declared among `entries`.
pub open spec fn has_header(entries: Seq<(Seq<char>, ColumnType)>, header: Seq<char>) -> bool {
    exists|i: int| #![trigger entries[i]] 0 <= i < entries.len() && entries[i].0 == header
}

/// A position where `header` is declared (meaningful when it is).
pub open spec fn header_index(entries: Seq<(Seq<char>, ColumnType)>, header: Seq<char>) -> int {
    choose|i: int| #![trigger entries[i]] 0 <= i < entries.len() && entries[i].0 == header
}

/// The type declared for `header`, if any.
pub open spec fn declared_type(entries: Seq<(Seq<char>, ColumnType)>, header: Seq<char>) -> Option<
    ColumnType,
> {
    if has_header(entries, header) {
        Some(entries[header_index(entries, header)].1)
    } else {
        None
    }
}

/// The type given to `header` by the last declaration of it in `list`.
pub open spec fn last_declared(list: Seq<(Seq<char>, ColumnType)>, header: Seq<char>) -> Option<
    ColumnType,
>
    decreases list.len(),
{
    if list.len() == 0 {
        None
    } else if list.last().0 == header {
        Some(list.last().1)
    } else {
        last_declared(list.drop_last(), header)
    }
}

proof fn lemma_declared_at(entries: Seq<(Seq<char>, ColumnType)>, i: int)
    requires
        strictly_ordered(entries),
        0 <= i < entries.len(),
    ensures
        declared_type(entries, entries[i].0) == Some(entries[i].1),
{
    let header = entries[i].0;
    assert(entries[i].0 == header);
    assert(has_header(entries, header));
    let k = header_index(entries, header);
    assert(0 <= k < entries.len() && entries[k].0 == header);
    if k < i {
        assert(text_order(entries[k].0, entries[i].0) < 0);
        lemma_text_order_zero(entries[k].0, entries[i].0);
    } else if k > i {
        assert(text_order(entries[i].0, entries[k].0) < 0);
        lemma_text_order_zero(entries[i].0, entries[k].0);
    }
    assert(k == i);
}

proof fn lemma_insert_ordered(
    entries: Seq<(Seq<char>, ColumnType)>,
    index: int,
    header: Seq<char>,
    column_type: ColumnType,
)
    requires
        strictly_ordered(entries),
        0 <= index <= entries.len(),
        forall|k: int| 0 <= k < index ==> text_order(#[trigger] entries[k].0, header) < 0,
        index < entries.len() ==> text_order(header, entries[index].0) < 0,
    ensures
        strictly_ordered(entries.insert(index, (header, column_type))),
        forall|h: Seq<char>|
            #[trigger] declared_type(entries.insert(index, (header, column_type)), h) == if h
                == header {
                Some(column_type)
            } else {
                declared_type(entries, h)
            },
{
    let next = entries.insert(index, (header, column_type));
    assert forall|i: int, j: int| 0 <= i < j < next.len() implies text_order(
        #[trigger] next[i].0,
        #[trigger] next[j].0,
    ) < 0 by {
        if j < index {
        } else if j == index {
        } else if i == index {
            if j - 1 > index {
                assert(text_order(entries[index].0, entries[j - 1].0) < 0);
                lemma_text_order_transitive(header, entries[index].0, entries[j - 1].0);
            }
        } else if i < index {
        } else {
            assert(text_order(entries[i - 1].0, entries[j - 1].0) < 0);
        }
    }
    assert forall|h: Seq<char>|
        #[trigger] declared_type(next, h) == if h == header {
            Some(column_type)
        } else {
            declared_type(entries, h)
        } by {
        if h == header {
            assert(next[index] == (header, column_type));
            lemma_declared_at(next, index);
        } else if has_header(entries, h) {
            let k = header_index(entries, h);
            lemma_declared_at(entries, k);
            if k < index {
                assert(next[k] == entries[k]);
                lemma_declared_at(next, k);
            } else {
                assert(next[k + 1] == entries[k]);
                lemma_declared_at(next, k + 1);
            }
        } else {
            assert forall|k: int| 0 <= k < next.len() implies #[trigger] next[k].0 != h by {
                if k < index {
                    assert(next[k] == entries[k]);
                } else if k > index {
                    assert(next[k] == entries[k - 1]);
                }
            }
        }
    }
}

proof fn lemma_replace_ordered(
    entries: Seq<(Seq<char>, ColumnType)>,
    index: int,
    column_type: ColumnType,
)
    requires
        strictly_ordered(entries),
        0 <= index < entries.len(),
    ensures
        strictly_ordered(entries.update(index, (entries[index].0, column_type))),
        forall|h: Seq<char>|
            #[trigger] declared_type(entries.update(index, (entries[index].0, column_type)), h)
                == if h == entries[index].0 {
                Some(column_type)
            } else {
                declared_type(entries, h)
            },
{
    let header = entries[index].0;
    let next = entries.update(index, (header, column_type));
    assert forall|i: int, j: int| 0 <= i < j < next.len() implies text_order(
        #[trigger] next[i].0,
        #[trigger] next[j].0,
    ) < 0 by {
        assert(next[i].0 == entries[i].0);
        assert(next[j].0 == entries[j].0);
    }
    assert forall|h: Seq<char>|
        #[trigger] declared_type(next, h) == if h == header {
            Some(column_type)
        } else {
            declared_type(entries, h)
        } by {
        if h == header {
            lemma_declared_at(next, index);
        } else if has_header(entries, h) {
            let k = header_index(entries, h);
            lemma_declared_at(entries, k);
            assert(k != index);
            assert(next[k] == entries[k]);
            lemma_declared_at(next, k);
        } else {
            assert forall|k: int| 0 <= k < next.len() implies #[trigger] next[k].0 != h by {
                if k != index {
                    assert(next[k] == entries[k]);
                }
            }
        }
    }
}

proof fn lemma_remove_ordered(entries: Seq<(Seq<char>, ColumnType)>, index: int)
    requires
        strictly_ordered(entries),
        0 <= index < entries.len(),
    ensures
        strictly_ordered(entries.remove(index)),
        forall|h: Seq<char>|
            #[trigger] declared_type(entries.remove(index), h) == if h == entries[index].0 {
                None
            } else {
                declared_type(entries, h)
            },
{
    let header = entries[index].0;
    let next = entries.remove(index);
    assert forall|i: int, j: int| 0 <= i < j < next.len() implies text_order(
        #[trigger] next[i].0,
        #[trigger] next[j].0,
    ) < 0 by {
        let a = if i < index {
            i
        } else {
            i + 1
        };
        let b = if j < index {
            j
        } else {
            j + 1
        };
        assert(next[i] == entries[a]);
        assert(next[j] == entries[b]);
        assert(text_order(entries[a].0, entries[b].0) < 0);
    }
    assert forall|h: Seq<char>|
        #[trigger] declared_type(next, h) == if h == header {
            None
        } else {
            declared_type(entries, h)
        } by {
        if h == header {
            assert forall|k: int| 0 <= k < next.len() implies #[trigger] next[k].0 != h by {
                let a = if k < index {
                    k
                } else {
                    k + 1
                };
                assert(next[k] == entries[a]);
                lemma_text_order_zero(entries[a].0, header);
                if a < index {
                    assert(text_order(entries[a].0, entries[index].0) < 0);
                } else {
                    assert(text_order(entries[index].0, entries[a].0) < 0);
                    lemma_text_order_antisymmetric(entries[index].0, entries[a].0);
                }
            }
        } else if has_header(entries, h) {
            let k = header_index(entries, h);
            lemma_declared_at(entries, k);
            assert(k != index);
            if k < index {
                assert(next[k] == entries[k]);
                lemma_declared_at(next, k);
            } else {
                assert(next[k - 1] == entries[k]);
                lemma_declared_at(next, k - 1);
            }
        } else {
            assert forall|k: int| 0 <= k < next.len() implies #[trigger] next[k].0 != h by {
                if k < index {
                    assert(next[k] == entries[k]);
                } else {
                    assert(next[k] == entries[k + 1]);
                }
            }
        }
    }
}

/// A declaration as plain text.
pub open spec fn entry_view(entry: (String, ColumnType)) -> (Seq<char>, ColumnType) {
    (entry.0@, entry.1)
}

/// The type declared for each header, in header order.
pub struct ColumnMetadata {
    declarations: Vec<(String, ColumnType)>,
}

impl View for ColumnMetadata {
    type V = Seq<(Seq<char>, ColumnType)>;

    closed spec fn view(&self) -> Seq<(Seq<char>, ColumnType)> {
        self.declarations@.map_values(|entry: (String, ColumnType)| entry_view(entry))
    }
}

impl ColumnMetadata {
    /// Declarations are kept in strictly increasing header order.
    pub open spec fn wf(&self) -> bool {
        strictly_ordered(self@)
    }

    /// No declarations.
    pub fn new() -> (metadata: Self)
        ensures
            metadata.wf(),
            metadata@ == Seq::<(Seq<char>, ColumnType)>::empty(),
    {
        let metadata = ColumnMetadata { declarations: Vec::new() };
        assert(metadata@ =~= Seq::<(Seq<char>, ColumnType)>::empty());
        metadata
    }

    /// The declarations, in header order.
    pub fn declarations(&self) -> (declarations: &[(String, ColumnType)])
        ensures
            declarations@.map_values(|entry: (String, ColumnType)| entry_view(entry)) == self@,
    {
        self.declarations.as_slice()
    }

    /// The type declared for `header`.
    pub fn get(&self, header: &str) -> (column_type: Option<ColumnType>)
        requires
            self.wf(),
        ensures
            column_type == declared_type(self@, header@),
    {
        let mut index: usize = 0;
        while index < self.declarations.len()
            invariant
                self.wf(),
                index <= self.declarations@.len() == self@.len(),
                forall|k: int| 0 <= k < index ==> (#[trigger] self@[k]).0 != header@,
            decreases self.declarations@.len() - index,
        {
            assert(self@[index as int] == entry_view(self.declarations@[index as int]));
            if str_equal(self.declarations[index].0.as_str(), header) {
                proof {
                    lemma_declared_at(self@, index as int);
                }
                return Some(self.declarations[index].1);
            }
            index += 1;
        }
        None
    }

    /// Declares `column_type` for `header`, replacing any earlier declaration of it.
    pub fn set(&mut self, header: String, column_type: ColumnType)
        requires
            old(self).wf(),
        ensures
            final(self).wf(),
            forall|h: Seq<char>|
                #[trigger] declared_type(final(self)@, h) == if h == header@ {
                    Some(column_type)
                } else {
                    declared_type(old(self)@, h)
                },
    {
        let count = self.declarations.len();
        let mut index: usize = 0;
        while index < count && compare_text(self.declarations[index].0.as_str(), header.as_str())
            < 0
            invariant
                index <= count == self.declarations@.len() == self@.len(),
                forall|k: int| 0 <= k < index ==> text_order(#[trigger] self@[k].0, header@) < 0,
            decreases count - index,
        {
            assert(self@[index as int] == entry_view(self.declarations@[index as int]));
            index += 1;
        }
        let ghost before = self@;
        if index < count && compare_text(self.declarations[index].0.as_str(), header.as_str())
            == 0 {
            assert(before[index as int] == entry_view(self.declarations@[index as int]));
            proof {
                lemma_text_order_zero(before[index as int].0, header@);
                lemma_replace_ordered(before, index as int, column_type);
            }
            self.declarations.set(index, (header, column_type));
            assert(self@ =~= before.update(index as int, (before[index as int].0, column_type)));
        } else {
            proof {
                if index < count {
                    assert(before[index as int] == entry_view(self.declarations@[index as int]));
                    lemma_text_order_antisymmetric(before[index as int].0, header@);
                }
                lemma_insert_ordered(before, index as int, header@, column_type);
            }
            self.declarations.insert(index, (header, column_type));
            assert(self@ =~= before.insert(index as int, (header@, column_type)));
        }
    }

    /// Removes the declaration of `header`; whether there was one.
    pub fn remove(&mut self, header: &str) -> (removed: bool)
        requires
            old(self).wf(),
        ensures
            final(self).wf(),
            removed == (declared_type(old(self)@, header@) is Some),
            forall|h: Seq<char>|
                #[trigger] declared_type(final(self)@, h) == if h == header@ {
                    None
                } else {
                    declared_type(old(self)@, h)
                },
    {
        let mut index: usize = 0;
        while index < self.declarations.len()
            invariant
                self.wf(),
                self@ == old(self)@,
                index <= self.declarations@.len() == self@.len(),
                forall|k: int| 0 <= k < index ==> (#[trigger] self@[k]).0 != header@,
            decreases self.declarations@.len() - index,
        {
            assert(self@[index as int] == entry_view(self.declarations@[index as int]));
            if str_equal(self.declarations[index].0.as_str(), header) {
                let ghost before = self@;
                proof {
                    lemma_declared_at(before, index as int);
                    lemma_remove_ordered(before, index as int);
                }
                self.declarations.remove(index);
                assert(self@ =~= before.remove(index as int));
                return true;
            }
            index += 1;
        }
        assert(!has_header(self@, header@));
        false
    }
}

/// The declarations in a sidecar's `columns` object, in member order, or the schema
/// message for the first member that is not a declaration.
pub open spec fn column_declarations(members: Seq<(String, JsonValue)>) -> Result<
    Seq<(Seq<char>, ColumnType)>,
    Seq<char>,
>
    decreases members.len(),
{
    if members.len() == 0 {
        Ok(seq![])
    } else {
        let header = members[0].0@;
        match json_text(json_field(members[0].1, "type"@)) {
            None => Err("column metadata for `"@ + header + "` does not contain a string type"@),
            Some(name) => match type_named(name) {
                None => Err("column metadata for `"@ + header + "` has unsupported type `"@ + name
                    + "`"@),
                Some(column_type) => match column_declarations(members.drop_first()) {
                    Ok(rest) => Ok(seq![(header, column_type)] + rest),
                    Err(message) => Err(message),
                },
            },
        }
    }
}

/// What a sidecar declares, in member order, or the schema message that rejects it.
pub open spec fn metadata_load(value: JsonValue) -> Result<Seq<(Seq<char>, ColumnType)>, Seq<char>> {
    match json_u64(json_field(value, "version"@)) {
        None => Err("missing integer metadata version"@),
        Some(version) => if version != METADATA_VERSION {
            Err("unsupported metadata version "@ + decimal_digits(version as nat))
        } else {
            match json_members(json_field(value, "columns"@)) {
                None => Err("missing columns object"@),
                Some(members) => column_declarations(members),
            }
        },
    }
}

/// `value` is the declaration object `{"type": <name>}` of `column_type`.
pub open spec fn declaration_json(value: JsonValue, column_type: ColumnType) -> bool {
    &&& value matches JsonValue::Object(members)
    &&& members@.len() == 1
    &&& members@[0].0@ == "type"@
    &&& members@[0].1 matches JsonValue::String(name)
    &&& name@ == metadata_type_name(column_type)
}

/// `value` is the sidecar document of `entries`:
/// `{"version": 1, "columns": {<header>: {"type": <name>}, ...}}`, headers in order.
pub open spec fn metadata_json_shape(value: JsonValue, entries: Seq<(Seq<char>, ColumnType)>) -> bool {
    &&& value matches JsonValue::Object(members)
    &&& members@.len() == 2
    &&& members@[0].0@ == "version"@
    &&& members@[0].1 == JsonValue::Number(JsonNumber::PosInt(METADATA_VERSION))
    &&& members@[1].0@ == "columns"@
    &&& members@[1].1 matches JsonValue::Object(columns)
    &&& columns@.len() == entries.len()
    &&& forall|i: int|
        0 <= i < entries.len() ==> (#[trigger] columns@[i]).0@ == entries[i].0 && declaration_json(
            columns@[i].1,
            entries[i].1,
        )
}

impl ColumnMetadata {
    /// Reads the declarations of a parsed sidecar; a later declaration of a header
    /// replaces an earlier one.
    pub fn from_json(value: &JsonValue) -> (result: Result<ColumnMetadata, MetadataError>)
        ensures
            match result {
                Ok(metadata) => {
                    &&& metadata.wf()
                    &&& metadata_load(*value) matches Ok(list)
                    &&& forall|h: Seq<char>| #[trigger]
                        declared_type(metadata@, h) == last_declared(list, h)
                },
                Err(MetadataError::Schema(message)) => metadata_load(*value) == Err::<
                    Seq<(Seq<char>, ColumnType)>,
                    Seq<char>,
                >(message@),
                Err(_) => false,
            },
    {
        let version = match u64_field(value, "version") {
            Some(version) => version,
            None => {
                return Err(MetadataError::Schema(String::from_str("missing integer metadata version")));
            },
        };
        if version != METADATA_VERSION {
            let mut digits: Vec<char> = Vec::new();
            push_decimal_digits(&mut digits, version as u128);
            let digits = string_of(digits.as_slice());
            let mut message = String::from_str("unsupported metadata version ");
            message.append(digits.as_str());
            return Err(MetadataError::Schema(message));
        }
        let members = match members_field(value, "columns") {
            Some(members) => members,
            None => {
                return Err(MetadataError::Schema(String::from_str("missing columns object")));
            },
        };
        let mut metadata = ColumnMetadata::new();
        let ghost mut done: Seq<(Seq<char>, ColumnType)> = seq![];
        let mut index: usize = 0;
        assert(members@.skip(0) =~= members@);
        while index < members.len()
            invariant
                index <= members@.len(),
                metadata.wf(),
                metadata_load(*value) == column_declarations(members@),
                forall|h: Seq<char>| #[trigger]
                    declared_type(metadata@, h) == last_declared(done, h),
                match column_declarations(members@.skip(index as int)) {
                    Ok(rest) => column_declarations(members@) == Ok::<
                        Seq<(Seq<char>, ColumnType)>,
                        Seq<char>,
                    >(done + rest),
                    Err(message) => column_declarations(members@) == Err::<
                        Seq<(Seq<char>, ColumnType)>,
                        Seq<char>,
                    >(message),
                },
            decreases members@.len() - index,
        {
            let ghost rest = members@.skip(index as int);
            assert(rest[0] == members@[index as int]);
            assert(rest.drop_first() =~= members@.skip(index + 1));
            let header = &members[index].0;
            let declared_name = match text_field(&members[index].1, "type") {
                Some(name) => name,
                None => {
                    let mut message = String::from_str("column metadata for `");
                    message.append(header.as_str());
                    message.append("` does not contain a string type");
                    return Err(MetadataError::Schema(message));
                },
            };
            let column_type = match ColumnType::from_metadata_str(declared_name.as_str()) {
                Some(column_type) => column_type,
                None => {
                    let mut message = String::from_str("column metadata for `");
                    message.append(header.as_str());
                    message.append("` has unsupported type `");
                    message.append(declared_name.as_str());
                    message.append("`");
                    return Err(MetadataError::Schema(message));
                },
            };
            metadata.set(header.clone(), column_type);
            proof {
                let entry = (header@, column_type);
                let grown = done.push(entry);
                assert(grown.drop_last() =~= done);
                assert forall|h: Seq<char>| #[trigger]
                    declared_type(metadata@, h) == last_declared(grown, h) by {}
                match column_declarations(members@.skip(index + 1)) {
                    Ok(tail) => {
                        assert(grown + tail =~= done + (seq![entry] + tail));
                    },
                    Err(_) => {},
                }
                done = grown;
            }
            index += 1;
        }
        assert(members@.skip(index as int) =~= Seq::<(String, JsonValue)>::empty());
        assert(done + Seq::<(Seq<char>, ColumnType)>::empty() =~= done);
        Ok(metadata)
    }

    /// The sidecar document of these declarations (see `metadata_json_shape`).
    pub fn to_json(&self) -> (value: JsonValue)
        ensures
            metadata_json_shape(value, self@),
    {
        let mut columns: Vec<(String, JsonValue)> = Vec::new();
        let mut index: usize = 0;
        while index < self.declarations.len()
            invariant
                index <= self.declarations@.len() == self@.len(),
                columns@.len() == index,
                forall|i: int|
                    0 <= i < index ==> (#[trigger] columns@[i]).0@ == self@[i].0 && declaration_json(
                        columns@[i].1,
                        self@[i].1,
                    ),
            decreases self.declarations@.len() - index,
        {
            assert(self@[index as int] == entry_view(self.declarations@[index as int]));
            let header = self.declarations[index].0.clone();
            let column_type = self.declarations[index].1;
            let name = String::from_str(column_type.as_metadata_str());
            let declaration = JsonValue::Object(vec![(String::from_str("type"), JsonValue::String(name))]);
            columns.push((header, declaration));
            index += 1;
        }
        JsonValue::Object(
            vec![
                (String::from_str("version"), JsonValue::Number(JsonNumber::PosInt(METADATA_VERSION))),
                (String::from_str("columns"), JsonValue::Object(columns)),
            ],
        )
    }
}

proof fn lemma_last_declared_ordered(entries: Seq<(Seq<char>, ColumnType)>, header: Seq<char>)
    requires
        strictly_ordered(entries),
    ensures
        last_declared(entries, header) == declared_type(entries, header),
    decreases entries.len(),
{
    if entries.len() > 0 {
        let shorter = entries.drop_last();
        assert(strictly_ordered(shorter)) by {
            assert forall|i: int, j: int| 0 <= i < j < shorter.len() implies text_order(
                #[trigger] shorter[i].0,
                #[trigger] shorter[j].0,
            ) < 0 by {
                assert(shorter[i] == entries[i] && shorter[j] == entries[j]);
            }
        }
        lemma_last_declared_ordered(shorter, header);
        if entries.last().0 == header {
            lemma_declared_at(entries, entries.len() - 1);
        } else if has_header(shorter, header) {
            let k = header_index(shorter, header);
            assert(entries[k] == shorter[k]);
            lemma_declared_at(shorter, k);
            lemma_declared_at(entries, k);
        } else {
            assert forall|k: int| 0 <= k < entries.len() implies #[trigger] entries[k].0
                != header by {
                if k < entries.len() - 1 {
                    assert(entries[k] == shorter[k]);
                }
            }
        }
    }
}

proof fn lemma_columns_of_shape(
    columns: Seq<(String, JsonValue)>,
    entries: Seq<(Seq<char>, ColumnType)>,
)
    requires
        columns.len() == entries.len(),
        forall|i: int|
            0 <= i < entries.len() ==> (#[trigger] columns[i]).0@ == entries[i].0 && declaration_json(
                columns[i].1,
                entries[i].1,
            ),
    ensures
        column_declarations(columns) == Ok::<Seq<(Seq<char>, ColumnType)>, Seq<char>>(entries),
    decreases columns.len(),
{
    reveal_strlit("type");
    if columns.len() == 0 {
        assert(entries =~= seq![]);
    } else {
        assert(columns[0].0@ == entries[0].0);
        let declaration = columns[0].1;
        assert(declaration_json(declaration, entries[0].1));
        lemma_type_name_round_trip(entries[0].1);
        assert(json_text(json_field(declaration, "type"@)) == Some(metadata_type_name(entries[0].1)));
        assert forall|i: int| 0 <= i < entries.drop_first().len() implies (
        #[trigger] columns.drop_first()[i]).0@ == entries.drop_first()[i].0 && declaration_json(
            columns.drop_first()[i].1,
            entries.drop_first()[i].1,
        ) by {
            assert(columns.drop_first()[i] == columns[i + 1]);
            assert(entries.drop_first()[i] == entries[i + 1]);
        }
        lemma_columns_of_shape(columns.drop_first(), entries.drop_first());
        assert(seq![(entries[0].0, entries[0].1)] + entries.drop_first() =~= entries);
    }
}

/// Reading back a saved sidecar gives the declarations that were saved.
pub proof fn lemma_metadata_round_trip(entries: Seq<(Seq<char>, ColumnType)>, value: JsonValue)
    requires
        strictly_ordered(entries),
        metadata_json_shape(value, entries),
    ensures
        metadata_load(value) matches Ok(list) && forall|h: Seq<char>|
            #[trigger] last_declared(list, h) == declared_type(entries, h),
{
    reveal_strlit("version");
    reveal_strlit("columns");
    let members = value->Object_0;
    assert(members@.drop_first()[0] == members@[1]);
    assert(json_u64(json_field(value, "version"@)) == Some(METADATA_VERSION));
    assert("version"@[0] != "columns"@[0]);
    assert(members@[0].0@ != "columns"@);
    assert(member_value(members@.drop_first(), "columns"@) == Some(members@[1].1));
    assert(json_field(value, "columns"@) == Some(members@[1].1));
    let columns = members@[1].1->Object_0;
    lemma_columns_of_shape(columns@, entries);
    assert forall|h: Seq<char>| #[trigger] last_declared(entries, h) == declared_type(entries, h) by {
        lemma_last_declared_ordered(entries, h);
    }
}

} // verus!
