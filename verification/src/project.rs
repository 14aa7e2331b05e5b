//! Versioned `.rwprj` project manifests. A manifest stores references only: CSV
//! contents stay in their source files. Paths are `/`-separated text.

use vstd::prelude::*;

use crate::json::{
    json_pair, json_pair_text, json_string_list, parse_json_strings, json_quote,
    json_string_text, field, flag_field, items_field, json_field, json_flag, json_items, json_members, json_text,
    json_u64, text_field, u64_field, JsonNumber, JsonValue,
};
use crate::data::table::max_width;
use crate::process::column::{column_message, header_columns, ColumnError, ColumnType};
use crate::process::document::{
    header_lookup_error, same_edits, str_equal, unique_header, CsvDocument, DocumentError,
};
use crate::process::history::Rows;
use crate::process::metadata::{declared_type, last_declared, metadata_type_name, type_named};
use crate::json::member_value;
use crate::text::{
    chars_of, count_list_text, count_to_string, decimal_digits, lemma_trim_unchanged, lines_of,
    push_decimal_digits, string_of, string_of_range, text_lines, trim, trim_bounds,
};

verus! {

/// The `format` a manifest must declare.
pub const PROJECT_FORMAT: &'static str = "rowly-project";

/// The manifest version that is read and written.
pub const PROJECT_VERSION: u64 = 1;

/// What a project source names: one CSV file, or a directory of them.
#[derive(Debug, Clone, Copy, PartialEq, Eq, Structural)]
pub enum SourceKind {
    File,
    Directory,
}

/// A declared source of CSV data.
#[derive(Debug, Clone, PartialEq, Eq)]
pub struct ProjectSource {
    pub id: String,
    pub kind: SourceKind,
    pub path: String,
    pub recursive: bool,
}

/// Where a project's scripts live, relative to the manifest.
#[derive(Debug, Clone, PartialEq, Eq)]
pub struct ProjectScripts {
    pub init: String,
    pub generated: String,
    pub user: String,
    pub macros: String,
}

/// A project manifest.
#[derive(Debug, Clone, PartialEq, Eq)]
pub struct RowlyProject {
    pub name: String,
    pub sources: Vec<ProjectSource>,
    pub scripts: ProjectScripts,
    pub history: String,
}

/// A source with its path resolved against the manifest's directory.
#[derive(Debug, Clone, PartialEq, Eq)]
pub struct ResolvedSource {
    pub id: String,
    pub kind: SourceKind,
    pub path: String,
    pub recursive: bool,
}

/// A source as plain text.
#[verifier::ext_equal]
pub struct SourceView {
    pub id: Seq<char>,
    pub kind: SourceKind,
    pub path: Seq<char>,
    pub recursive: bool,
}

/// A manifest as plain text.
#[verifier::ext_equal]
pub struct ProjectView {
    pub name: Seq<char>,
    pub sources: Seq<SourceView>,
    pub init: Seq<char>,
    pub generated: Seq<char>,
    pub user: Seq<char>,
    pub macros: Seq<char>,
    pub history: Seq<char>,
}

impl View for ProjectSource {
    type V = SourceView;

    open spec fn view(&self) -> SourceView {
        SourceView { id: self.id@, kind: self.kind, path: self.path@, recursive: self.recursive }
    }
}

impl View for RowlyProject {
    type V = ProjectView;

    open spec fn view(&self) -> ProjectView {
        ProjectView {
            name: self.name@,
            sources: self.sources@.map_values(|source: ProjectSource| source@),
            init: self.scripts.init@,
            generated: self.scripts.generated@,
            user: self.scripts.user@,
            macros: self.scripts.macros@,
            history: self.history@,
        }
    }
}

/// Why a manifest could not be read, understood, written or laid out.
#[derive(Debug, Clone, PartialEq, Eq)]
pub enum ProjectError {
    Io { path: String, message: String },
    Read { path: String, message: String },
    Parse { path: String, message: String },
    Schema(String),
    Write { path: String, message: String },
}

/// The message of a project error.
pub open spec fn project_message(error: ProjectError) -> Seq<char> {
    match error {
        ProjectError::Io { path, message } => "failed to access project file `"@ + path@ + "`: "@
            + message@,
        ProjectError::Read { path, message } => "failed to read Rowly project `"@ + path@ + "`: "@
            + message@,
        ProjectError::Parse { path, message } => "failed to parse Rowly project `"@ + path@
            + "`: "@ + message@,
        ProjectError::Schema(message) => "invalid Rowly project schema: "@ + message@,
        ProjectError::Write { path, message } => "failed to write Rowly project `"@ + path@
            + "`: "@ + message@,
    }
}

fn path_message(lead: &str, path: &String, message: &String) -> (text: String)
    ensures
        text@ == lead@ + path@ + "`: "@ + message@,
{
    let mut text = String::from_str(lead);
    text.append(path.as_str());
    text.append("`: ");
    text.append(message.as_str());
    text
}

impl ProjectError {
    /// The error's message (see `project_message`).
    pub fn to_string(&self) -> (text: String)
        ensures
            text@ == project_message(*self),
    {
        match self {
            ProjectError::Io { path, message } => path_message(
                "failed to access project file `",
                path,
                message,
            ),
            ProjectError::Read { path, message } => path_message(
                "failed to read Rowly project `",
                path,
                message,
            ),
            ProjectError::Parse { path, message } => path_message(
                "failed to parse Rowly project `",
                path,
                message,
            ),
            ProjectError::Schema(message) => {
                let mut text = String::from_str("invalid Rowly project schema: ");
                text.append(message.as_str());
                text
            },
            ProjectError::Write { path, message } => path_message(
                "failed to write Rowly project `",
                path,
                message,
            ),
        }
    }
}

fn schema_error(message: &str) -> (error: ProjectError)
    ensures
        error matches ProjectError::Schema(text) && text@ == message@,
{
    ProjectError::Schema(String::from_str(message))
}

/// `lead`, then `value`, then `tail`.
fn quoted_message(lead: &str, value: &str, tail: &str) -> (text: String)
    ensures
        text@ == lead@ + value@ + tail@,
{
    let mut text = String::from_str(lead);
    text.append(value);
    text.append(tail);
    text
}

/// `lead`, then `value`.
fn prefixed_message(lead: &str, value: &str) -> (text: String)
    ensures
        text@ == lead@ + value@,
{
    let mut text = String::from_str(lead);
    text.append(value);
    text
}

/// Whether the text is empty once white space is trimmed (`str::trim().is_empty()`).
pub fn is_blank(text: &str) -> (blank: bool)
    ensures
        blank == (trim(text@).len() == 0),
{
    let chars = chars_of(text);
    let bounds = trim_bounds(chars.as_slice(), 0, chars.len());
    assert(chars@.subrange(0, chars@.len() as int) =~= text@);
    bounds.0 == bounds.1
}

/// The first problem with source `k` given the sources before it: an empty or repeated
/// id, an empty path, or a recursive file.
pub open spec fn source_problem(sources: Seq<SourceView>, k: int) -> Option<Seq<char>> {
    let source = sources[k];
    if trim(source.id).len() == 0 || exists|j: int| 0 <= j < k && #[trigger] sources[j].id
        == source.id {
        Some("source id `"@ + source.id + "` is empty or duplicated"@)
    } else if source.path.len() == 0 {
        Some("source `"@ + source.id + "` has an empty path"@)
    } else if source.kind == SourceKind::File && source.recursive {
        Some("file source `"@ + source.id + "` cannot be recursive"@)
    } else {
        None
    }
}

/// The first problem among sources `0..count`.
pub open spec fn sources_problem(sources: Seq<SourceView>, count: int) -> Option<Seq<char>>
    decreases count,
{
    if count <= 0 {
        None
    } else {
        match sources_problem(sources, count - 1) {
            Some(message) => Some(message),
            None => source_problem(sources, count - 1),
        }
    }
}

/// The first reason a manifest is invalid: a blank name, a source problem, or an empty
/// script or history path.
pub open spec fn project_problem(project: ProjectView) -> Option<Seq<char>> {
    if trim(project.name).len() == 0 {
        Some("name must not be empty"@)
    } else {
        match sources_problem(project.sources, project.sources.len() as int) {
            Some(message) => Some(message),
            None => if project.init.len() == 0 || project.generated.len() == 0 || project.user.len()
                == 0 || project.macros.len() == 0 || project.history.len() == 0 {
                Some("script and history paths must not be empty"@)
            } else {
                None
            },
        }
    }
}

proof fn lemma_sources_problem_stays(sources: Seq<SourceView>, a: int, b: int)
    requires
        0 <= a <= b,
        sources_problem(sources, a) is Some,
    ensures
        sources_problem(sources, b) == sources_problem(sources, a),
    decreases b - a,
{
    if b > a {
        lemma_sources_problem_stays(sources, a, b - 1);
    }
}

impl RowlyProject {
    /// Checks the manifest (see `project_problem`).
    pub fn validate(&self) -> (result: Result<(), ProjectError>)
        ensures
            match result {
                Ok(()) => project_problem(self@) is None,
                Err(ProjectError::Schema(message)) => project_problem(self@) == Some(message@),
                Err(_) => false,
            },
    {
        if is_blank(self.name.as_str()) {
            return Err(schema_error("name must not be empty"));
        }
        let ghost sources = self@.sources;
        let mut index: usize = 0;
        while index < self.sources.len()
            invariant
                index <= self.sources@.len() == sources.len(),
                sources == self.sources@.map_values(|source: ProjectSource| source@),
                sources_problem(sources, index as int) is None,
                trim(self.name@).len() != 0,
            decreases self.sources@.len() - index,
        {
            let source = &self.sources[index];
            assert(sources[index as int] == source@);
            let mut duplicated = is_blank(source.id.as_str());
            let mut earlier: usize = 0;
            while earlier < index && !duplicated
                invariant
                    earlier <= index < self.sources@.len() == sources.len(),
                    sources == self.sources@.map_values(|source: ProjectSource| source@),
                    *source == self.sources@[index as int],
                    !duplicated ==> trim(source.id@).len() != 0 && forall|j: int|
                        0 <= j < earlier ==> #[trigger] sources[j].id != source.id@,
                    duplicated ==> trim(source.id@).len() == 0 || exists|j: int|
                        0 <= j < index && #[trigger] sources[j].id == source.id@,
                decreases index - earlier,
            {
                assert(sources[earlier as int] == self.sources@[earlier as int]@);
                if str_equal(self.sources[earlier].id.as_str(), source.id.as_str()) {
                    assert(sources[earlier as int].id == source.id@);
                    duplicated = true;
                }
                earlier += 1;
            }
            proof {
                if source_problem(sources, index as int) is Some {
                    assert(sources_problem(sources, index + 1) == source_problem(sources, index as int));
                    lemma_sources_problem_stays(sources, index + 1, sources.len() as int);
                }
            }
            if duplicated {
                let message = quoted_message(
                    "source id `",
                    source.id.as_str(),
                    "` is empty or duplicated",
                );
                return Err(ProjectError::Schema(message));
            }
            if source.path.as_str().is_empty() {
                let message = quoted_message("source `", source.id.as_str(), "` has an empty path");
                return Err(ProjectError::Schema(message));
            }
            if source.kind == SourceKind::File && source.recursive {
                let message = quoted_message(
                    "file source `",
                    source.id.as_str(),
                    "` cannot be recursive",
                );
                return Err(ProjectError::Schema(message));
            }
            index += 1;
        }
        if self.scripts.init.as_str().is_empty() || self.scripts.generated.as_str().is_empty()
            || self.scripts.user.as_str().is_empty() || self.scripts.macros.as_str().is_empty()
            || self.history.as_str().is_empty() {
            return Err(schema_error("script and history paths must not be empty"));
        }
        Ok(())
    }
}

/// The message for a member that is missing, not a string, or blank.
pub open spec fn missing_text_message(name: Seq<char>) -> Seq<char> {
    "missing or empty string `"@ + name + "`"@
}

/// The member `name` of an object, which must be a string that is not blank.
pub open spec fn required_text(object: JsonValue, name: Seq<char>) -> Result<Seq<char>, Seq<char>> {
    match json_text(json_field(object, name)) {
        Some(text) => if trim(text).len() != 0 {
            Ok(text)
        } else {
            Err(missing_text_message(name))
        },
        None => Err(missing_text_message(name)),
    }
}

/// The source kind written as `name`.
pub open spec fn source_kind_named(name: Seq<char>) -> Option<SourceKind> {
    if name == "file"@ {
        Some(SourceKind::File)
    } else if name == "directory"@ {
        Some(SourceKind::Directory)
    } else {
        None
    }
}

/// One entry of `sources`: an object with `id`, `type` and `path`, and `recursive`
/// (false when absent), which a file source may not set.
pub open spec fn source_read(item: JsonValue) -> Result<SourceView, Seq<char>> {
    if !(item is Object) {
        Err("each source must be an object"@)
    } else {
        match required_text(item, "id"@) {
            Err(message) => Err(message),
            Ok(id) => match required_text(item, "type"@) {
                Err(message) => Err(message),
                Ok(kind_text) => match source_kind_named(kind_text) {
                    None => Err("unsupported source type `"@ + kind_text + "`"@),
                    Some(kind) => match required_text(item, "path"@) {
                        Err(message) => Err(message),
                        Ok(path) => {
                            let recursive = match json_flag(json_field(item, "recursive"@)) {
                                Some(flag) => flag,
                                None => false,
                            };
                            if kind == SourceKind::File && recursive {
                                Err("file source `"@ + id + "` cannot be recursive"@)
                            } else {
                                Ok(SourceView { id, kind, path, recursive })
                            }
                        },
                    },
                },
            },
        }
    }
}

/// The entries of `sources` in order, or the message for the first that is refused.
pub open spec fn sources_read(items: Seq<JsonValue>) -> Result<Seq<SourceView>, Seq<char>>
    decreases items.len(),
{
    if items.len() == 0 {
        Ok(seq![])
    } else {
        match source_read(items[0]) {
            Err(message) => Err(message),
            Ok(source) => match sources_read(items.drop_first()) {
                Ok(rest) => Ok(seq![source] + rest),
                Err(message) => Err(message),
            },
        }
    }
}

/// The `format`, `version` and `name` of a manifest: the name, or why it is refused.
pub open spec fn manifest_name_read(value: JsonValue) -> Result<Seq<char>, Seq<char>> {
    if !(value is Object) {
        Err("project must be a JSON object"@)
    } else {
        match required_text(value, "format"@) {
            Err(message) => Err(message),
            Ok(format) => if format != "rowly-project"@ {
                Err("unsupported project format `"@ + format + "`"@)
            } else {
                match json_u64(json_field(value, "version"@)) {
                    None => Err("missing integer version"@),
                    Some(version) => if version != PROJECT_VERSION {
                        Err("unsupported project version "@ + decimal_digits(version as nat))
                    } else {
                        required_text(value, "name"@)
                    },
                }
            },
        }
    }
}

/// The `scripts` object's four paths, or why it is refused.
pub open spec fn scripts_read(value: JsonValue) -> Result<
    (Seq<char>, Seq<char>, Seq<char>, Seq<char>),
    Seq<char>,
> {
    match json_field(value, "scripts"@) {
        Some(scripts) => if !(scripts is Object) {
            Err("missing scripts object"@)
        } else {
            match required_text(scripts, "init"@) {
                Err(message) => Err(message),
                Ok(init) => match required_text(scripts, "generated"@) {
                    Err(message) => Err(message),
                    Ok(generated) => match required_text(scripts, "user"@) {
                        Err(message) => Err(message),
                        Ok(user) => match required_text(scripts, "macros"@) {
                            Err(message) => Err(message),
                            Ok(macros) => Ok((init, generated, user, macros)),
                        },
                    },
                },
            }
        },
        None => Err("missing scripts object"@),
    }
}

/// What a parsed manifest declares, before `project_problem` is checked, or the message
/// for the first thing in it that is refused (in the order the manifest is read).
pub open spec fn project_read(value: JsonValue) -> Result<ProjectView, Seq<char>> {
    match manifest_name_read(value) {
        Err(message) => Err(message),
        Ok(name) => match json_items(json_field(value, "sources"@)) {
            None => Err("missing sources array"@),
            Some(items) => match sources_read(items) {
                Err(message) => Err(message),
                Ok(sources) => match scripts_read(value) {
                    Err(message) => Err(message),
                    Ok(scripts) => match required_text(value, "history"@) {
                        Err(message) => Err(message),
                        Ok(history) => Ok(
                            ProjectView {
                                name,
                                sources,
                                init: scripts.0,
                                generated: scripts.1,
                                user: scripts.2,
                                macros: scripts.3,
                                history,
                            },
                        ),
                    },
                },
            },
        },
    }
}

fn required_text_field(object: &JsonValue, name: &str) -> (result: Result<String, ProjectError>)
    ensures
        match result {
            Ok(text) => required_text(*object, name@) == Ok::<Seq<char>, Seq<char>>(text@),
            Err(ProjectError::Schema(message)) => required_text(*object, name@) == Err::<
                Seq<char>,
                Seq<char>,
            >(message@),
            Err(_) => false,
        },
{
    match text_field(object, name) {
        Some(text) => {
            if !is_blank(text.as_str()) {
                return Ok(text.clone());
            }
        },
        None => {},
    }
    Err(ProjectError::Schema(quoted_message("missing or empty string `", name, "`")))
}

fn read_source(item: &JsonValue) -> (result: Result<ProjectSource, ProjectError>)
    ensures
        match result {
            Ok(source) => source_read(*item) == Ok::<SourceView, Seq<char>>(source@),
            Err(ProjectError::Schema(message)) => source_read(*item) == Err::<SourceView, Seq<char>>(
                message@,
            ),
            Err(_) => false,
        },
{
    proof {
        reveal_strlit("file");
        reveal_strlit("directory");
    }
    match item {
        JsonValue::Object(_) => {},
        _ => {
            return Err(schema_error("each source must be an object"));
        },
    }
    let id = match required_text_field(item, "id") {
        Ok(id) => id,
        Err(error) => {
            return Err(error);
        },
    };
    let kind_text = match required_text_field(item, "type") {
        Ok(text) => text,
        Err(error) => {
            return Err(error);
        },
    };
    let kind = if str_equal(kind_text.as_str(), "file") {
        SourceKind::File
    } else if str_equal(kind_text.as_str(), "directory") {
        SourceKind::Directory
    } else {
        return Err(
            ProjectError::Schema(
                quoted_message("unsupported source type `", kind_text.as_str(), "`"),
            ),
        );
    };
    let path = match required_text_field(item, "path") {
        Ok(path) => path,
        Err(error) => {
            return Err(error);
        },
    };
    let recursive = match flag_field(item, "recursive") {
        Some(flag) => flag,
        None => false,
    };
    if kind == SourceKind::File && recursive {
        return Err(
            ProjectError::Schema(
                quoted_message("file source `", id.as_str(), "` cannot be recursive"),
            ),
        );
    }
    let source = ProjectSource { id, kind, path, recursive };
    assert(source_read(*item) == Ok::<SourceView, Seq<char>>(source@));
    Ok(source)
}

impl RowlyProject {
    /// Reads and checks a parsed manifest. Paths are kept as written.
    pub fn from_json(value: &JsonValue) -> (result: Result<RowlyProject, ProjectError>)
        ensures
            match result {
                Ok(project) => project_read(*value) == Ok::<ProjectView, Seq<char>>(project@)
                    && project_problem(project@) is None,
                Err(ProjectError::Schema(message)) => match project_read(*value) {
                    Ok(view) => project_problem(view) == Some(message@),
                    Err(refused) => refused == message@,
                },
                Err(_) => false,
            },
    {
        proof {
            reveal_strlit("rowly-project");
        }
        match value {
            JsonValue::Object(_) => {},
            _ => {
                return Err(schema_error("project must be a JSON object"));
            },
        }
        let format = match required_text_field(value, "format") {
            Ok(format) => format,
            Err(error) => {
                return Err(error);
            },
        };
        if !str_equal(format.as_str(), PROJECT_FORMAT) {
            return Err(
                ProjectError::Schema(
                    quoted_message("unsupported project format `", format.as_str(), "`"),
                ),
            );
        }
        let version = match u64_field(value, "version") {
            Some(version) => version,
            None => {
                return Err(schema_error("missing integer version"));
            },
        };
        if version != PROJECT_VERSION {
            let mut digits: Vec<char> = Vec::new();
            push_decimal_digits(&mut digits, version as u128);
            let digits = string_of(digits.as_slice());
            let mut message = String::from_str("unsupported project version ");
            message.append(digits.as_str());
            return Err(ProjectError::Schema(message));
        }
        let name = match required_text_field(value, "name") {
            Ok(name) => name,
            Err(error) => {
                return Err(error);
            },
        };
        assert(manifest_name_read(*value) == Ok::<Seq<char>, Seq<char>>(name@));
        let items = match items_field(value, "sources") {
            Some(items) => items,
            None => {
                return Err(schema_error("missing sources array"));
            },
        };
        let mut sources: Vec<ProjectSource> = Vec::new();
        let mut index: usize = 0;
        assert(items@.skip(0) =~= items@);
        while index < items.len()
            invariant
                index <= items@.len(),
                manifest_name_read(*value) == Ok::<Seq<char>, Seq<char>>(name@),
                json_items(json_field(*value, "sources"@)) == Some(items@),
                match sources_read(items@.skip(index as int)) {
                    Ok(rest) => sources_read(items@) == Ok::<Seq<SourceView>, Seq<char>>(
                        sources@.map_values(|source: ProjectSource| source@) + rest,
                    ),
                    Err(message) => sources_read(items@) == Err::<Seq<SourceView>, Seq<char>>(
                        message,
                    ),
                },
            decreases items@.len() - index,
        {
            let ghost rest = items@.skip(index as int);
            assert(rest[0] == items@[index as int]);
            assert(rest.drop_first() =~= items@.skip(index + 1));
            let source = match read_source(&items[index]) {
                Ok(source) => source,
                Err(error) => {
                    return Err(error);
                },
            };
            let ghost before = sources@.map_values(|source: ProjectSource| source@);
            sources.push(source);
            proof {
                let after = sources@.map_values(|source: ProjectSource| source@);
                assert(after =~= before.push(source@));
                match sources_read(items@.skip(index + 1)) {
                    Ok(tail) => {
                        assert(after + tail =~= before + (seq![source@] + tail));
                    },
                    Err(_) => {},
                }
            }
            index += 1;
        }
        assert(items@.skip(index as int) =~= Seq::<JsonValue>::empty());
        assert(sources@.map_values(|source: ProjectSource| source@) + Seq::<SourceView>::empty()
            =~= sources@.map_values(|source: ProjectSource| source@));
        let scripts_value = match field(value, "scripts") {
            Some(scripts) => match scripts {
                JsonValue::Object(_) => scripts,
                _ => {
                    return Err(schema_error("missing scripts object"));
                },
            },
            None => {
                return Err(schema_error("missing scripts object"));
            },
        };
        let init = match required_text_field(scripts_value, "init") {
            Ok(path) => path,
            Err(error) => {
                return Err(error);
            },
        };
        let generated = match required_text_field(scripts_value, "generated") {
            Ok(path) => path,
            Err(error) => {
                return Err(error);
            },
        };
        let user = match required_text_field(scripts_value, "user") {
            Ok(path) => path,
            Err(error) => {
                return Err(error);
            },
        };
        let macros = match required_text_field(scripts_value, "macros") {
            Ok(path) => path,
            Err(error) => {
                return Err(error);
            },
        };
        let history = match required_text_field(value, "history") {
            Ok(path) => path,
            Err(error) => {
                return Err(error);
            },
        };
        let project = RowlyProject {
            name,
            sources,
            scripts: ProjectScripts { init, generated, user, macros },
            history,
        };
        assert(project_read(*value) == Ok::<ProjectView, Seq<char>>(project@));
        match project.validate() {
            Ok(()) => Ok(project),
            Err(error) => Err(error),
        }
    }
}

/// Member `k` is named `name` and holds the string `text`.
pub open spec fn text_member(members: Seq<(String, JsonValue)>, k: int, name: Seq<char>, text: Seq<
    char,
>) -> bool {
    &&& members[k].0@ == name
    &&& members[k].1 matches JsonValue::String(s)
    &&& s@ == text
}

/// The name a source kind is written under.
pub open spec fn source_kind_text(kind: SourceKind) -> Seq<char> {
    match kind {
        SourceKind::File => "file"@,
        SourceKind::Directory => "directory"@,
    }
}

/// `value` is the manifest entry of `source`: `{"id", "type", "path"}`, and
/// `"recursive"` for a directory.
pub open spec fn source_json(value: JsonValue, source: SourceView) -> bool {
    &&& value matches JsonValue::Object(members)
    &&& members@.len() == if source.kind == SourceKind::Directory {
        4int
    } else {
        3int
    }
    &&& text_member(members@, 0, "id"@, source.id)
    &&& text_member(members@, 1, "type"@, source_kind_text(source.kind))
    &&& text_member(members@, 2, "path"@, source.path)
    &&& source.kind == SourceKind::Directory ==> members@[3].0@ == "recursive"@ && members@[3].1
        == JsonValue::Bool(source.recursive)
}

/// `value` is the manifest of `project`: `format`, `version`, `name`, `sources`,
/// `scripts` (`init`, `generated`, `user`, `macros`) and `history`, in that order.
pub open spec fn project_json_shape(value: JsonValue, project: ProjectView) -> bool {
    &&& value matches JsonValue::Object(members)
    &&& members@.len() == 6
    &&& text_member(members@, 0, "format"@, "rowly-project"@)
    &&& members@[1].0@ == "version"@
    &&& members@[1].1 == JsonValue::Number(JsonNumber::PosInt(PROJECT_VERSION))
    &&& text_member(members@, 2, "name"@, project.name)
    &&& members@[3].0@ == "sources"@
    &&& members@[3].1 matches JsonValue::Array(items)
    &&& items@.len() == project.sources.len()
    &&& forall|i: int|
        0 <= i < items@.len() ==> source_json(#[trigger] items@[i], project.sources[i])
    &&& members@[4].0@ == "scripts"@
    &&& members@[4].1 matches JsonValue::Object(scripts)
    &&& scripts@.len() == 4
    &&& text_member(scripts@, 0, "init"@, project.init)
    &&& text_member(scripts@, 1, "generated"@, project.generated)
    &&& text_member(scripts@, 2, "user"@, project.user)
    &&& text_member(scripts@, 3, "macros"@, project.macros)
    &&& text_member(members@, 5, "history"@, project.history)
}

fn text_entry(name: &str, text: &String) -> (entry: (String, JsonValue))
    ensures
        entry.0@ == name@,
        entry.1 matches JsonValue::String(s) && s@ == text@,
{
    (String::from_str(name), JsonValue::String(text.clone()))
}

fn source_entry(source: &ProjectSource) -> (value: JsonValue)
    ensures
        source_json(value, source@),
{
    let kind_text = match source.kind {
        SourceKind::File => String::from_str("file"),
        SourceKind::Directory => String::from_str("directory"),
    };
    let mut members = vec![
        text_entry("id", &source.id),
        text_entry("type", &kind_text),
        text_entry("path", &source.path),
    ];
    if source.kind == SourceKind::Directory {
        members.push((String::from_str("recursive"), JsonValue::Bool(source.recursive)));
    }
    JsonValue::Object(members)
}

impl RowlyProject {
    /// The manifest to write for a valid project (see `project_json_shape`); nothing of
    /// the source data is in it.
    pub fn to_json(&self) -> (result: Result<JsonValue, ProjectError>)
        ensures
            match result {
                Ok(value) => project_problem(self@) is None && project_json_shape(value, self@),
                Err(ProjectError::Schema(message)) => project_problem(self@) == Some(message@),
                Err(_) => false,
            },
    {
        match self.validate() {
            Ok(()) => {},
            Err(error) => {
                return Err(error);
            },
        }
        let mut items: Vec<JsonValue> = Vec::new();
        let mut index: usize = 0;
        while index < self.sources.len()
            invariant
                index <= self.sources@.len(),
                items@.len() == index,
                forall|i: int|
                    0 <= i < index ==> source_json(#[trigger] items@[i], self@.sources[i]),
            decreases self.sources@.len() - index,
        {
            let item = source_entry(&self.sources[index]);
            items.push(item);
            index += 1;
        }
        let format = String::from_str(PROJECT_FORMAT);
        let scripts = vec![
            text_entry("init", &self.scripts.init),
            text_entry("generated", &self.scripts.generated),
            text_entry("user", &self.scripts.user),
            text_entry("macros", &self.scripts.macros),
        ];
        let value = JsonValue::Object(
            vec![
                text_entry("format", &format),
                (String::from_str("version"), JsonValue::Number(JsonNumber::PosInt(PROJECT_VERSION))),
                text_entry("name", &self.name),
                (String::from_str("sources"), JsonValue::Array(items)),
                (String::from_str("scripts"), JsonValue::Object(scripts)),
                text_entry("history", &self.history),
            ],
        );
        Ok(value)
    }
}

proof fn lemma_member_at(members: Seq<(String, JsonValue)>, k: int, key: Seq<char>)
    requires
        0 <= k < members.len(),
        members[k].0@ == key,
        forall|j: int| 0 <= j < k ==> (#[trigger] members[j]).0@ != key,
    ensures
        member_value(members, key) == Some(members[k].1),
    decreases k,
{
    if k > 0 {
        let rest = members.drop_first();
        assert(members[0].0@ != key);
        assert forall|j: int| 0 <= j < k - 1 implies (#[trigger] rest[j]).0@ != key by {
            assert(rest[j] == members[j + 1]);
        }
        lemma_member_at(rest, k - 1, key);
    }
}

proof fn lemma_member_absent(members: Seq<(String, JsonValue)>, key: Seq<char>)
    requires
        forall|j: int| 0 <= j < members.len() ==> (#[trigger] members[j]).0@ != key,
    ensures
        member_value(members, key) is None,
    decreases members.len(),
{
    if members.len() > 0 {
        let rest = members.drop_first();
        assert(members[0].0@ != key);
        assert forall|j: int| 0 <= j < rest.len() implies (#[trigger] rest[j]).0@ != key by {
            assert(rest[j] == members[j + 1]);
        }
        lemma_member_absent(rest, key);
    }
}

proof fn lemma_sources_problem_none(sources: Seq<SourceView>, count: int, k: int)
    requires
        0 <= k < count,
        sources_problem(sources, count) is None,
    ensures
        source_problem(sources, k) is None,
    decreases count,
{
    if k < count - 1 {
        lemma_sources_problem_none(sources, count - 1, k);
    }
}

proof fn lemma_source_of_shape(item: JsonValue, source: SourceView)
    requires
        source_json(item, source),
        trim(source.id).len() != 0,
        trim(source.path).len() != 0,
        source.kind == SourceKind::File ==> !source.recursive,
    ensures
        source_read(item) == Ok::<SourceView, Seq<char>>(source),
{
    reveal_strlit("id");
    reveal_strlit("type");
    reveal_strlit("path");
    reveal_strlit("recursive");
    reveal_strlit("file");
    reveal_strlit("directory");
    let members = item->Object_0@;
    assert("id"@.len() == 2 && "id"@[0] == 'i' && "id"@[1] == 'd');
    assert("type"@.len() == 4 && "type"@[0] == 't' && "type"@[1] == 'y');
    assert("path"@.len() == 4 && "path"@[0] == 'p' && "path"@[1] == 'a');
    assert("recursive"@.len() == 9 && "recursive"@[0] == 'r' && "recursive"@[1] == 'e');
    assert("file"@.len() == 4 && "file"@[0] == 'f' && "file"@[1] == 'i');
    assert("directory"@.len() == 9 && "directory"@[0] == 'd' && "directory"@[1] == 'i');
    lemma_member_at(members, 0, "id"@);
    assert(members[0].0@ != "type"@);
    lemma_member_at(members, 1, "type"@);
    assert(members[0].0@ != "path"@ && members[1].0@ != "path"@);
    lemma_member_at(members, 2, "path"@);
    let kind_text = source_kind_text(source.kind);
    lemma_trim_unchanged(kind_text);
    assert(source_kind_named(kind_text) == Some(source.kind));
    assert(members[0].0@ != "recursive"@ && members[1].0@ != "recursive"@ && members[2].0@
        != "recursive"@);
    if source.kind == SourceKind::Directory {
        lemma_member_at(members, 3, "recursive"@);
    } else {
        lemma_member_absent(members, "recursive"@);
    }
    let read = source_read(item);
    assert(read is Ok);
    assert(read->Ok_0 =~= source);
}

proof fn lemma_sources_of_shape(items: Seq<JsonValue>, sources: Seq<SourceView>)
    requires
        items.len() == sources.len(),
        forall|i: int| 0 <= i < items.len() ==> source_json(#[trigger] items[i], sources[i]),
        forall|i: int|
            0 <= i < sources.len() ==> trim((#[trigger] sources[i]).id).len() != 0 && trim(
                sources[i].path,
            ).len() != 0 && (sources[i].kind == SourceKind::File ==> !sources[i].recursive),
    ensures
        sources_read(items) == Ok::<Seq<SourceView>, Seq<char>>(sources),
    decreases items.len(),
{
    if items.len() == 0 {
        assert(sources =~= seq![]);
    } else {
        assert(source_json(items[0], sources[0]));
        assert(trim(sources[0].id).len() != 0);
        lemma_source_of_shape(items[0], sources[0]);
        let (rest_items, rest_sources) = (items.drop_first(), sources.drop_first());
        assert forall|i: int| 0 <= i < rest_items.len() implies source_json(
            #[trigger] rest_items[i],
            rest_sources[i],
        ) by {
            assert(rest_items[i] == items[i + 1] && rest_sources[i] == sources[i + 1]);
        }
        assert forall|i: int| 0 <= i < rest_sources.len() implies trim(
            (#[trigger] rest_sources[i]).id,
        ).len() != 0 && trim(rest_sources[i].path).len() != 0 && (rest_sources[i].kind
            == SourceKind::File ==> !rest_sources[i].recursive) by {
            assert(rest_sources[i] == sources[i + 1]);
        }
        lemma_sources_of_shape(rest_items, rest_sources);
        assert(seq![sources[0]] + rest_sources =~= sources);
    }
}

/// Reading back the manifest written for a valid project gives that project, when
/// none of its paths is blank.
pub proof fn lemma_project_round_trip(project: ProjectView, value: JsonValue)
    requires
        project_problem(project) is None,
        trim(project.init).len() != 0,
        trim(project.generated).len() != 0,
        trim(project.user).len() != 0,
        trim(project.macros).len() != 0,
        trim(project.history).len() != 0,
        forall|i: int| 0 <= i < project.sources.len() ==> trim(#[trigger] project.sources[i].path).len() != 0,
        project_json_shape(value, project),
    ensures
        project_read(value) == Ok::<ProjectView, Seq<char>>(project),
{
    reveal_strlit("format");
    reveal_strlit("version");
    reveal_strlit("name");
    reveal_strlit("sources");
    reveal_strlit("scripts");
    reveal_strlit("history");
    reveal_strlit("rowly-project");
    reveal_strlit("init");
    reveal_strlit("generated");
    reveal_strlit("user");
    reveal_strlit("macros");
    assert("format"@.len() == 6 && "format"@[0] == 'f' && "format"@[1] == 'o');
    assert("version"@.len() == 7 && "version"@[0] == 'v' && "version"@[1] == 'e');
    assert("name"@.len() == 4 && "name"@[0] == 'n' && "name"@[1] == 'a');
    assert("sources"@.len() == 7 && "sources"@[0] == 's' && "sources"@[1] == 'o');
    assert("scripts"@.len() == 7 && "scripts"@[0] == 's' && "scripts"@[1] == 'c');
    assert("history"@.len() == 7 && "history"@[0] == 'h' && "history"@[1] == 'i');
    assert("init"@.len() == 4 && "init"@[0] == 'i' && "init"@[1] == 'n');
    assert("generated"@.len() == 9 && "generated"@[0] == 'g' && "generated"@[1] == 'e');
    assert("user"@.len() == 4 && "user"@[0] == 'u' && "user"@[1] == 's');
    assert("macros"@.len() == 6 && "macros"@[0] == 'm' && "macros"@[1] == 'a');
    let members = value->Object_0@;
    lemma_member_at(members, 0, "format"@);
    lemma_trim_unchanged("rowly-project"@);
    assert(members[0].0@ != "version"@);
    lemma_member_at(members, 1, "version"@);
    assert(members[0].0@ != "name"@ && members[1].0@ != "name"@);
    lemma_member_at(members, 2, "name"@);
    assert(manifest_name_read(value) == Ok::<Seq<char>, Seq<char>>(project.name));
    assert(members[0].0@ != "sources"@ && members[1].0@ != "sources"@ && members[2].0@
        != "sources"@);
    lemma_member_at(members, 3, "sources"@);
    let items = members[3].1->Array_0@;
    let sources = project.sources;
    assert forall|i: int|
        0 <= i < sources.len() implies trim((#[trigger] sources[i]).id).len() != 0 && trim(
        sources[i].path,
    ).len() != 0 && (sources[i].kind == SourceKind::File ==> !sources[i].recursive) by {
        lemma_sources_problem_none(sources, sources.len() as int, i);
    }
    lemma_sources_of_shape(items, sources);
    assert("sources"@[1] != "scripts"@[1]);
    assert(members[0].0@ != "scripts"@ && members[1].0@ != "scripts"@ && members[2].0@
        != "scripts"@ && members[3].0@ != "scripts"@);
    lemma_member_at(members, 4, "scripts"@);
    let scripts = members[4].1->Object_0@;
    lemma_member_at(scripts, 0, "init"@);
    assert(scripts[0].0@ != "generated"@);
    lemma_member_at(scripts, 1, "generated"@);
    assert(scripts[0].0@ != "user"@ && scripts[1].0@ != "user"@);
    lemma_member_at(scripts, 2, "user"@);
    assert(scripts[0].0@ != "macros"@ && scripts[1].0@ != "macros"@ && scripts[2].0@
        != "macros"@);
    lemma_member_at(scripts, 3, "macros"@);
    assert(members[0].0@ != "history"@ && members[1].0@ != "history"@ && members[2].0@
        != "history"@ && members[3].0@ != "history"@ && members[4].0@ != "history"@);
    lemma_member_at(members, 5, "history"@);
    let read = project_read(value);
    assert(read is Ok);
    assert(read->Ok_0 =~= project);
}

/// The non-empty `/`-separated parts of `rest`, the current part having begun with
/// `current`.
pub open spec fn segments_from(rest: Seq<char>, current: Seq<char>) -> Seq<Seq<char>>
    decreases rest.len(),
{
    if rest.len() == 0 {
        if current.len() > 0 {
            seq![current]
        } else {
            seq![]
        }
    } else if rest[0] == '/' {
        (if current.len() > 0 {
            seq![current]
        } else {
            seq![]
        }) + segments_from(rest.drop_first(), seq![])
    } else {
        segments_from(rest.drop_first(), current.push(rest[0]))
    }
}

/// The non-empty `/`-separated parts of a path.
pub open spec fn path_segments(path: Seq<char>) -> Seq<Seq<char>> {
    segments_from(path, seq![])
}

/// A path from the root (`/...`).
pub open spec fn is_absolute_path(path: Seq<char>) -> bool {
    path.len() > 0 && path[0] == '/'
}

/// The parts of a path (see `path_segments`).
pub fn split_path(path: &str) -> (segments: Vec<String>)
    ensures
        segments@.map_values(|segment: String| segment@) == path_segments(path@),
{
    let chars = chars_of(path);
    let mut segments: Vec<String> = Vec::new();
    let mut current: Vec<char> = Vec::new();
    let mut index: usize = 0;
    assert(chars@.skip(0) =~= chars@);
    while index < chars.len()
        invariant
            chars@ == path@,
            index <= chars@.len(),
            path_segments(path@) == segments@.map_values(|segment: String| segment@) + segments_from(
                chars@.skip(index as int),
                current@,
            ),
        decreases chars@.len() - index,
    {
        let ghost rest = chars@.skip(index as int);
        assert(rest[0] == chars@[index as int]);
        assert(rest.drop_first() =~= chars@.skip(index + 1));
        let ghost before = segments@.map_values(|segment: String| segment@);
        if chars[index] == '/' {
            if current.len() > 0 {
                let segment = string_of(current.as_slice());
                segments.push(segment);
                assert(segments@.map_values(|segment: String| segment@) =~= before.push(segment@));
                assert(before.push(segment@) + segments_from(chars@.skip(index + 1), seq![]) =~= before
                    + (seq![current@] + segments_from(chars@.skip(index + 1), seq![])));
            } else {
                assert(Seq::<Seq<char>>::empty() + segments_from(chars@.skip(index + 1), seq![])
                    =~= segments_from(chars@.skip(index + 1), seq![]));
            }
            current = Vec::new();
        } else {
            let ghost previous = current@;
            current.push(chars[index]);
            assert(current@ == previous.push(chars@[index as int]));
        }
        index += 1;
    }
    let ghost before = segments@.map_values(|segment: String| segment@);
    assert(chars@.skip(index as int).len() == 0);
    if current.len() > 0 {
        let segment = string_of(current.as_slice());
        segments.push(segment);
        assert(segments@.map_values(|segment: String| segment@) =~= before + seq![segment@]);
    } else {
        assert(before + Seq::<Seq<char>>::empty() =~= before);
    }
    segments
}

/// How deep a walk along `segments` ends (`.` stays, `..` goes up), or nothing when it
/// would go above where it started.
pub open spec fn walk_depth(segments: Seq<Seq<char>>) -> Option<int>
    decreases segments.len(),
{
    if segments.len() == 0 {
        Some(0)
    } else {
        match walk_depth(segments.drop_last()) {
            None => None,
            Some(depth) => if segments.last() == "."@ {
                Some(depth)
            } else if segments.last() == ".."@ {
                if depth > 0 {
                    Some(depth - 1)
                } else {
                    None
                }
            } else {
                Some(depth + 1)
            },
        }
    }
}

/// Why `path` cannot name something inside the project: it is absolute, climbs out of
/// the project, or names the project directory itself.
pub open spec fn relative_problem(path: Seq<char>) -> Option<Seq<char>> {
    if is_absolute_path(path) {
        Some("project script path must be relative: "@ + path)
    } else {
        match walk_depth(path_segments(path)) {
            None => Some("project script path escapes the project: "@ + path),
            Some(depth) => if depth == 0 {
                Some("project script path must not be empty"@)
            } else {
                None
            },
        }
    }
}

fn is_dot(segment: &String) -> (dot: bool)
    ensures
        dot == (segment@ == "."@),
{
    str_equal(segment.as_str(), ".")
}

fn is_dot_dot(segment: &String) -> (dot_dot: bool)
    ensures
        dot_dot == (segment@ == ".."@),
{
    str_equal(segment.as_str(), "..")
}

/// Where a project script may be written: `link` is the first part of its path, walked from
/// the project folder, that is a symbolic link, if any; `ancestor` is the nearest existing
/// ancestor of `target`, resolved; `root` is the project folder, resolved. A path through a
/// link is refused; otherwise the path is accepted exactly when `ancestor` lies in `root`.
pub fn check_script_location(root: &str, ancestor: &str, target: &str, link: Option<&str>) -> (result: Result<
    (),
    ProjectError,
>)
    ensures
        match link {
            Some(part) => result matches Err(ProjectError::Schema(m)) && m@
                == "project script path contains a symbolic link: "@ + part@,
            None => {
                &&& result is Ok <==> crate::rowlyx::lexical_relative_parts(root@, ancestor@) is Some
                &&& result matches Err(error) ==> error matches ProjectError::Schema(m) && m@
                    == "project script path resolves outside the project: "@ + target@
            },
        },
{
    match link {
        Some(part) => Err(
            ProjectError::Schema(prefixed_message("project script path contains a symbolic link: ", part)),
        ),
        None => match crate::rowlyx::lexical_relative(root, ancestor) {
            Some(_) => Ok(()),
            None => Err(
                ProjectError::Schema(prefixed_message("project script path resolves outside the project: ", target)),
            ),
        },
    }
}

/// Checks that `path` names something inside the project (see `relative_problem`).
pub fn validate_project_relative(path: &str) -> (result: Result<(), ProjectError>)
    ensures
        match result {
            Ok(()) => relative_problem(path@) is None,
            Err(ProjectError::Schema(message)) => relative_problem(path@) == Some(message@),
            Err(_) => false,
        },
{
    if !path.is_empty() && starts_with_slash(path) {
        return Err(
            ProjectError::Schema(prefixed_message("project script path must be relative: ", path)),
        );
    }
    let segments = split_path(path);
    let ghost parts = path_segments(path@);
    let mut depth: usize = 0;
    let mut index: usize = 0;
    while index < segments.len()
        invariant
            index <= segments@.len() == parts.len(),
            parts == segments@.map_values(|segment: String| segment@),
            parts == path_segments(path@),
            !is_absolute_path(path@),
            walk_depth(parts.take(index as int)) == Some(depth as int),
            depth <= index,
        decreases segments@.len() - index,
    {
        assert(parts.take(index + 1).drop_last() =~= parts.take(index as int));
        assert(parts.take(index + 1).last() == segments@[index as int]@);
        if is_dot(&segments[index]) {
        } else if is_dot_dot(&segments[index]) {
            if depth > 0 {
                depth -= 1;
            } else {
                proof {
                    lemma_walk_depth_stays_none(parts, index + 1);
                    assert(parts.take(parts.len() as int) =~= parts);
                }
                return Err(
                    ProjectError::Schema(
                        prefixed_message("project script path escapes the project: ", path),
                    ),
                );
            }
        } else {
            depth += 1;
        }
        index += 1;
    }
    assert(parts.take(index as int) =~= parts);
    if depth == 0 {
        return Err(schema_error("project script path must not be empty"));
    }
    Ok(())
}

proof fn lemma_walk_depth_stays_none(parts: Seq<Seq<char>>, count: int)
    requires
        0 <= count <= parts.len(),
        walk_depth(parts.take(count)) is None,
    ensures
        walk_depth(parts) is None,
    decreases parts.len() - count,
{
    if count < parts.len() {
        assert(parts.take(count + 1).drop_last() =~= parts.take(count));
        lemma_walk_depth_stays_none(parts, count + 1);
    } else {
        assert(parts.take(count) =~= parts);
    }
}

fn starts_with_slash(path: &str) -> (slash: bool)
    requires
        path@.len() > 0,
    ensures
        slash == (path@[0] == '/'),
{
    let chars = chars_of(path);
    chars[0] == '/'
}

/// The parts left after walking `segments` (`.` dropped, `..` removing the part before
/// it), or nothing when a `..` has no part before it.
pub open spec fn normalized_segments(segments: Seq<Seq<char>>) -> Option<Seq<Seq<char>>>
    decreases segments.len(),
{
    if segments.len() == 0 {
        Some(seq![])
    } else {
        match normalized_segments(segments.drop_last()) {
            None => None,
            Some(parts) => if segments.last() == "."@ {
                Some(parts)
            } else if segments.last() == ".."@ {
                if parts.len() > 0 {
                    Some(parts.drop_last())
                } else {
                    None
                }
            } else {
                Some(parts.push(segments.last()))
            },
        }
    }
}

/// The parts of a relative path once `.` and `..` are resolved; nothing for an absolute
/// path or one that climbs above its start.
pub open spec fn normalized_path(path: Seq<char>) -> Option<Seq<Seq<char>>> {
    if is_absolute_path(path) {
        None
    } else {
        normalized_segments(path_segments(path))
    }
}

proof fn lemma_normalized_stays_none(parts: Seq<Seq<char>>, count: int)
    requires
        0 <= count <= parts.len(),
        normalized_segments(parts.take(count)) is None,
    ensures
        normalized_segments(parts) is None,
    decreases parts.len() - count,
{
    if count < parts.len() {
        assert(parts.take(count + 1).drop_last() =~= parts.take(count));
        lemma_normalized_stays_none(parts, count + 1);
    } else {
        assert(parts.take(count) =~= parts);
    }
}

/// The parts of a relative path once `.` and `..` are resolved (see `normalized_path`).
pub fn normalize_project_path(path: &str) -> (normalized: Option<Vec<String>>)
    ensures
        match normalized {
            Some(parts) => normalized_path(path@) == Some(
                parts@.map_values(|part: String| part@),
            ),
            None => normalized_path(path@) is None,
        },
{
    if !path.is_empty() && starts_with_slash(path) {
        return None;
    }
    let segments = split_path(path);
    let ghost parts = path_segments(path@);
    let mut kept: Vec<String> = Vec::new();
    let mut index: usize = 0;
    while index < segments.len()
        invariant
            index <= segments@.len() == parts.len(),
            parts == segments@.map_values(|segment: String| segment@),
            parts == path_segments(path@),
            !is_absolute_path(path@),
            normalized_segments(parts.take(index as int)) == Some(
                kept@.map_values(|part: String| part@),
            ),
        decreases segments@.len() - index,
    {
        assert(parts.take(index + 1).drop_last() =~= parts.take(index as int));
        assert(parts.take(index + 1).last() == segments@[index as int]@);
        let ghost before = kept@.map_values(|part: String| part@);
        if is_dot(&segments[index]) {
        } else if is_dot_dot(&segments[index]) {
            if kept.len() > 0 {
                kept.pop();
                assert(kept@.map_values(|part: String| part@) =~= before.drop_last());
            } else {
                proof {
                    lemma_normalized_stays_none(parts, index + 1);
                }
                return None;
            }
        } else {
            kept.push(segments[index].clone());
            assert(kept@.map_values(|part: String| part@) =~= before.push(segments@[index as int]@));
        }
        index += 1;
    }
    assert(parts.take(index as int) =~= parts);
    Some(kept)
}

/// `path` begins with the parts of `prefix` (`Path::starts_with`).
pub open spec fn starts_with_parts(path: Seq<Seq<char>>, prefix: Seq<Seq<char>>) -> bool {
    prefix.len() <= path.len() && path.take(prefix.len() as int) == prefix
}

/// The problem with script path `k` given the ones before it.
pub open spec fn layout_step_problem(paths: Seq<Seq<char>>, k: int) -> Option<Seq<char>> {
    match relative_problem(paths[k]) {
        Some(message) => Some(message),
        None => match normalized_path(paths[k]) {
            None => Some("invalid project script path: "@ + paths[k]),
            Some(parts) => if exists|j: int|
                0 <= j < k && #[trigger] normalized_path(paths[j]) == Some(parts) {
                Some("project script paths must be distinct"@)
            } else {
                None
            },
        },
    }
}

/// The first problem among script paths `0..count`.
pub open spec fn layout_steps_problem(paths: Seq<Seq<char>>, count: int) -> Option<Seq<char>>
    decreases count,
{
    if count <= 0 {
        None
    } else {
        match layout_steps_problem(paths, count - 1) {
            Some(message) => Some(message),
            None => layout_step_problem(paths, count - 1),
        }
    }
}

/// Why a script layout is refused: a path that is not inside the project, two paths
/// naming the same place, or an init file inside the macros directory.
pub open spec fn layout_problem(init: Seq<char>, generated: Seq<char>, user: Seq<char>, macros: Seq<
    char,
>) -> Option<Seq<char>> {
    let paths = seq![init, generated, user, macros];
    match layout_steps_problem(paths, 4) {
        Some(message) => Some(message),
        None => {
            let m = normalized_path(macros).unwrap();
            if starts_with_parts(normalized_path(init).unwrap(), m) || starts_with_parts(
                normalized_path(generated).unwrap(),
                m,
            ) || starts_with_parts(normalized_path(user).unwrap(), m) {
                Some("macros directory must not contain init files"@)
            } else {
                None
            }
        },
    }
}

fn parts_equal(a: &Vec<String>, b: &Vec<String>) -> (equal: bool)
    ensures
        equal == (a@.map_values(|part: String| part@) == b@.map_values(|part: String| part@)),
{
    if a.len() != b.len() {
        assert(a@.map_values(|part: String| part@).len() != b@.map_values(|part: String| part@).len());
        return false;
    }
    let mut index: usize = 0;
    while index < a.len()
        invariant
            a@.len() == b@.len(),
            index <= a@.len(),
            forall|k: int| 0 <= k < index ==> (#[trigger] a@[k])@ == b@[k]@,
        decreases a@.len() - index,
    {
        if !str_equal(a[index].as_str(), b[index].as_str()) {
            assert(a@.map_values(|part: String| part@)[index as int] != b@.map_values(
                |part: String| part@,
            )[index as int]);
            return false;
        }
        index += 1;
    }
    assert(a@.map_values(|part: String| part@) =~= b@.map_values(|part: String| part@));
    true
}

fn starts_with_segments(path: &Vec<String>, prefix: &Vec<String>) -> (starts: bool)
    ensures
        starts == starts_with_parts(
            path@.map_values(|part: String| part@),
            prefix@.map_values(|part: String| part@),
        ),
{
    let ghost p = path@.map_values(|part: String| part@);
    let ghost q = prefix@.map_values(|part: String| part@);
    if prefix.len() > path.len() {
        return false;
    }
    let mut index: usize = 0;
    while index < prefix.len()
        invariant
            prefix@.len() <= path@.len(),
            index <= prefix@.len(),
            p == path@.map_values(|part: String| part@),
            q == prefix@.map_values(|part: String| part@),
            forall|k: int| 0 <= k < index ==> #[trigger] p[k] == q[k],
        decreases prefix@.len() - index,
    {
        if !str_equal(path[index].as_str(), prefix[index].as_str()) {
            assert(p.take(q.len() as int)[index as int] != q[index as int]);
            return false;
        }
        index += 1;
    }
    assert(p.take(q.len() as int) =~= q);
    true
}

impl ProjectScripts {
    /// Conventional script locations of a new project.
    pub fn standard() -> (scripts: Self)
        ensures
            scripts.init@ == "data/scripts/rowlydsl/init.rly"@,
            scripts.generated@ == "data/scripts/rowlydsl/init/generated.rly"@,
            scripts.user@ == "data/scripts/rowlydsl/init/user.rly"@,
            scripts.macros@ == "data/scripts/rowlydsl/macros"@,
    {
        ProjectScripts {
            init: String::from_str("data/scripts/rowlydsl/init.rly"),
            generated: String::from_str("data/scripts/rowlydsl/init/generated.rly"),
            user: String::from_str("data/scripts/rowlydsl/init/user.rly"),
            macros: String::from_str("data/scripts/rowlydsl/macros"),
        }
    }

    /// Checks the script layout (see `layout_problem`).
    pub fn validate_script_layout(&self) -> (result: Result<(), ProjectError>)
        ensures
            match result {
                Ok(()) => layout_problem(
                    self.init@,
                    self.generated@,
                    self.user@,
                    self.macros@,
                ) is None,
                Err(ProjectError::Schema(message)) => layout_problem(
                    self.init@,
                    self.generated@,
                    self.user@,
                    self.macros@,
                ) == Some(message@),
                Err(_) => false,
            },
    {
        let paths: Vec<&String> = vec![&self.init, &self.generated, &self.user, &self.macros];
        let ghost texts = seq![self.init@, self.generated@, self.user@, self.macros@];
        let mut normals: Vec<Vec<String>> = Vec::new();
        let mut index: usize = 0;
        while index < 4
            invariant
                index <= 4,
                paths@.len() == 4,
                forall|k: int| 0 <= k < 4 ==> (#[trigger] paths@[k])@ == texts[k],
                texts == seq![self.init@, self.generated@, self.user@, self.macros@],
                normals@.len() == index,
                layout_steps_problem(texts, index as int) is None,
                forall|k: int|
                    0 <= k < index ==> normalized_path(texts[k]) == Some(
                        (#[trigger] normals@[k])@.map_values(|part: String| part@),
                    ),
            decreases 4 - index,
        {
            let path = paths[index];
            assert(path@ == texts[index as int]);
            match validate_project_relative(path.as_str()) {
                Ok(()) => {},
                Err(error) => {
                    proof {
                        lemma_layout_fails(texts, index as int);
                    }
                    return Err(error);
                },
            }
            let normalized = match normalize_project_path(path.as_str()) {
                Some(parts) => parts,
                None => {
                    proof {
                        lemma_layout_fails(texts, index as int);
                    }
                    return Err(
                        ProjectError::Schema(
                            prefixed_message("invalid project script path: ", path.as_str()),
                        ),
                    );
                },
            };
            let mut earlier: usize = 0;
            while earlier < index
                invariant
                    earlier <= index < 4,
                    texts == seq![self.init@, self.generated@, self.user@, self.macros@],
                    normals@.len() == index,
                    normalized_path(texts[index as int]) == Some(
                        normalized@.map_values(|part: String| part@),
                    ),
                    forall|k: int|
                        0 <= k < index ==> normalized_path(texts[k]) == Some(
                            (#[trigger] normals@[k])@.map_values(|part: String| part@),
                        ),
                    forall|k: int|
                        0 <= k < earlier ==> normalized_path(#[trigger] texts[k]) != Some(
                            normalized@.map_values(|part: String| part@),
                        ),
                    layout_steps_problem(texts, index as int) is None,
                    relative_problem(texts[index as int]) is None,
                decreases index - earlier,
            {
                if parts_equal(&normals[earlier], &normalized) {
                    proof {
                        assert(normalized_path(texts[earlier as int]) == Some(
                            normalized@.map_values(|part: String| part@),
                        ));
                        lemma_layout_fails(texts, index as int);
                    }
                    return Err(schema_error("project script paths must be distinct"));
                }
                earlier += 1;
            }
            normals.push(normalized);
            index += 1;
        }
        let macros = &normals[3];
        let mut file: usize = 0;
        while file < 3
            invariant
                file <= 3,
                normals@.len() == 4,
                texts == seq![self.init@, self.generated@, self.user@, self.macros@],
                layout_steps_problem(texts, 4) is None,
                forall|k: int|
                    0 <= k < 4 ==> normalized_path(texts[k]) == Some(
                        (#[trigger] normals@[k])@.map_values(|part: String| part@),
                    ),
                *macros == normals@[3],
                forall|k: int|
                    0 <= k < file ==> !starts_with_parts(
                        (#[trigger] normals@[k])@.map_values(|part: String| part@),
                        macros@.map_values(|part: String| part@),
                    ),
            decreases 3 - file,
        {
            if starts_with_segments(&normals[file], macros) {
                return Err(schema_error("macros directory must not contain init files"));
            }
            file += 1;
        }
        proof {
            let m = normals@[3]@.map_values(|part: String| part@);
            assert(normalized_path(self.macros@) == Some(m));
            assert(!starts_with_parts(normals@[0]@.map_values(|part: String| part@), m));
            assert(!starts_with_parts(normals@[1]@.map_values(|part: String| part@), m));
            assert(!starts_with_parts(normals@[2]@.map_values(|part: String| part@), m));
            assert(normalized_path(self.init@) == Some(normals@[0]@.map_values(|part: String| part@)));
            assert(normalized_path(self.generated@) == Some(normals@[1]@.map_values(|part: String| part@)));
            assert(normalized_path(self.user@) == Some(normals@[2]@.map_values(|part: String| part@)));
        }
        Ok(())
    }
}

proof fn lemma_layout_fails(paths: Seq<Seq<char>>, k: int)
    requires
        0 <= k < 4,
        paths.len() == 4,
        layout_steps_problem(paths, k) is None,
        layout_step_problem(paths, k) is Some,
    ensures
        layout_steps_problem(paths, 4) == layout_step_problem(paths, k),
    decreases 4 - k,
{
    assert(layout_steps_problem(paths, k + 1) == layout_step_problem(paths, k));
    if k + 1 < 4 {
        assert(layout_steps_problem(paths, k + 2) == layout_steps_problem(paths, k + 1));
        if k + 2 < 4 {
            assert(layout_steps_problem(paths, k + 3) == layout_steps_problem(paths, k + 2));
            if k + 3 < 4 {
                assert(layout_steps_problem(paths, k + 4) == layout_steps_problem(paths, k + 3));
            }
        }
    }
}

/// Where the components of a path begin: after a leading `/`, or after a leading `.` that
/// stands alone or before a separator; 0 otherwise.
pub open spec fn body_start(path: Seq<char>) -> int {
    if path.len() > 0 && path[0] == '/' {
        1
    } else if path.len() > 0 && path[0] == '.' && (path.len() == 1 || path[1] == '/') {
        1
    } else {
        0
    }
}

/// The index of the last separator of `path` at or after `floor`, or `floor - 1`.
pub open spec fn last_slash_from(path: Seq<char>, floor: int) -> int
    decreases path.len(),
{
    if path.len() == 0 || path.len() <= floor {
        floor - 1
    } else if path.last() == '/' {
        path.len() - 1
    } else {
        last_slash_from(path.drop_last(), floor)
    }
}

pub proof fn lemma_last_slash_from_bounds(path: Seq<char>, floor: int)
    ensures
        path.len() > floor && floor >= 0 ==> floor - 1 <= last_slash_from(path, floor) < path.len(),
    decreases path.len(),
{
    if path.len() > floor && floor >= 0 && path.last() != '/' {
        lemma_last_slash_from_bounds(path.drop_last(), floor);
        if path.drop_last().len() == floor {
            assert(last_slash_from(path.drop_last(), floor) == floor - 1);
        }
    }
}

/// The last component of `path` after `floor`: what follows its last separator.
pub open spec fn last_component(path: Seq<char>, floor: int) -> Seq<char> {
    path.subrange(last_slash_from(path, floor) + 1, path.len() as int)
}

/// `path` cut just before its last component (and the separator before it).
pub open spec fn before_last_component(path: Seq<char>, floor: int) -> Seq<char> {
    let slash = last_slash_from(path, floor);
    path.subrange(0, if slash >= floor { slash } else { floor })
}

/// `path` with the empty and `.` components at its end dropped, the first `floor`
/// characters kept.
pub open spec fn trim_back(path: Seq<char>, floor: int) -> Seq<char>
    decreases path.len(),
{
    if 0 <= floor < path.len() {
        let component = last_component(path, floor);
        if component.len() == 0 || component == seq!['.'] {
            proof {
                lemma_last_slash_from_bounds(path, floor);
            }
            trim_back(before_last_component(path, floor), floor)
        } else {
            path
        }
    } else {
        path
    }
}

/// `Path::parent`: the path without its last component, separators and `.` components
/// at the end dropped (`.` components are no components, but for a leading one); nothing
/// for an empty path or the root itself.
pub open spec fn path_parent(path: Seq<char>) -> Option<Seq<char>> {
    let floor = body_start(path);
    let trimmed = trim_back(path, floor);
    if trimmed.len() > floor {
        Some(trim_back(before_last_component(trimmed, floor), floor))
    } else if path.len() > 0 && path[0] == '/' {
        None
    } else if floor == 1 {
        Some(seq![])
    } else {
        None
    }
}

/// `reference` taken from `base`: itself when absolute or when `base` is empty, else
/// `base` and `reference` joined by one separator.
pub open spec fn join_path(base: Seq<char>, reference: Seq<char>) -> Seq<char> {
    if is_absolute_path(reference) || base.len() == 0 {
        reference
    } else if base.last() == '/' {
        base + reference
    } else {
        base + "/"@ + reference
    }
}

/// A manifest reference resolved against the manifest's directory (`.` when the
/// manifest path has none); absolute references stay as they are.
pub open spec fn resolved_reference(project_path: Seq<char>, reference: Seq<char>) -> Seq<char> {
    let root = match path_parent(project_path) {
        Some(parent) => parent,
        None => "."@,
    };
    join_path(root, reference)
}

/// The directory a project's files live in: the manifest's directory, or `.`.
pub open spec fn project_root_path(project_file: Seq<char>) -> Seq<char> {
    match path_parent(project_file) {
        Some(parent) => if parent.len() > 0 {
            parent
        } else {
            "."@
        },
        None => "."@,
    }
}

/// The last separator of `chars[..end]` at or after `floor`.
fn last_slash_in(chars: &Vec<char>, end: usize, floor: usize) -> (slash: Option<usize>)
    requires
        floor <= end <= chars@.len(),
    ensures
        match slash {
            Some(k) => floor <= k < end && last_slash_from(chars@.subrange(0, end as int), floor as int) == k,
            None => last_slash_from(chars@.subrange(0, end as int), floor as int) == floor - 1,
        },
{
    let mut index = end;
    while index > floor && chars[index - 1] != '/'
        invariant
            floor <= index <= end <= chars@.len(),
            last_slash_from(chars@.subrange(0, end as int), floor as int) == last_slash_from(
                chars@.subrange(0, index as int),
                floor as int,
            ),
        decreases index,
    {
        assert(chars@.subrange(0, index as int).drop_last() =~= chars@.subrange(0, index - 1));
        index -= 1;
    }
    if index == floor {
        None
    } else {
        Some(index - 1)
    }
}

/// The end of `trim_back(chars[..end], floor)`.
fn trim_back_end(chars: &Vec<char>, end: usize, floor: usize) -> (trimmed: usize)
    requires
        floor <= end <= chars@.len(),
    ensures
        floor <= trimmed <= end,
        chars@.subrange(0, trimmed as int) == trim_back(chars@.subrange(0, end as int), floor as int),
{
    let mut e = end;
    let mut done = false;
    while e > floor && !done
        invariant
            floor <= e <= end <= chars@.len(),
            trim_back(chars@.subrange(0, end as int), floor as int) == trim_back(
                chars@.subrange(0, e as int),
                floor as int,
            ),
            done ==> trim_back(chars@.subrange(0, e as int), floor as int) == chars@.subrange(0, e as int),
        decreases e, if done { 0int } else { 1int },
    {
        let ghost prefix = chars@.subrange(0, e as int);
        let slash = last_slash_in(chars, e, floor);
        let cut = match slash {
            Some(k) => k,
            None => floor,
        };
        let start = match slash {
            Some(k) => k + 1,
            None => floor,
        };
        proof {
            assert(last_component(prefix, floor as int) =~= chars@.subrange(start as int, e as int));
            assert(before_last_component(prefix, floor as int) =~= chars@.subrange(0, cut as int));
        }
        let skip = start == e || (start + 1 == e && chars[start] == '.');
        proof {
            let component = chars@.subrange(start as int, e as int);
            if start + 1 == e && chars@[start as int] == '.' {
                assert(component =~= seq!['.']);
            }
            if component == seq!['.'] {
                assert(component.len() == 1 && component[0] == '.');
            }
        }
        if skip {
            e = cut;
        } else {
            done = true;
        }
    }
    e
}

/// Where the components of `chars` begin (see `body_start`).
fn body_start_of(chars: &Vec<char>) -> (start: usize)
    ensures
        start == body_start(chars@),
        start <= chars@.len(),
{
    let n = chars.len();
    if n > 0 && chars[0] == '/' {
        1
    } else if n > 0 && chars[0] == '.' && (n == 1 || chars[1] == '/') {
        1
    } else {
        0
    }
}

/// The directory part of a path (see `path_parent`).
pub fn parent_path(path: &str) -> (parent: Option<String>)
    ensures
        match parent {
            Some(p) => path_parent(path@) == Some(p@),
            None => path_parent(path@) is None,
        },
{
    let chars = chars_of(path);
    let n = chars.len();
    assert(chars@.subrange(0, n as int) =~= path@);
    let floor = body_start_of(&chars);
    let t = trim_back_end(&chars, n, floor);
    if t > floor {
        let ghost trimmed = chars@.subrange(0, t as int);
        let slash = last_slash_in(&chars, t, floor);
        let cut = match slash {
            Some(k) => k,
            None => floor,
        };
        assert(before_last_component(trimmed, floor as int) =~= chars@.subrange(0, cut as int));
        let e = trim_back_end(&chars, cut, floor);
        Some(string_of_range(chars.as_slice(), 0, e))
    } else if n > 0 && chars[0] == '/' {
        None
    } else if floor == 1 {
        Some(String::new())
    } else {
        None
    }
}

/// `reference` taken from `base` (see `join_path`).
pub fn join_paths(base: &str, reference: &str) -> (joined: String)
    ensures
        joined@ == join_path(base@, reference@),
{
    if (!reference.is_empty() && starts_with_slash(reference)) || base.is_empty() {
        return String::from_str(reference);
    }
    let chars = chars_of(base);
    let mut joined = String::from_str(base);
    if chars[chars.len() - 1] != '/' {
        joined.append("/");
    }
    joined.append(reference);
    joined
}

/// Resolves a project-relative script, history or source reference against the
/// manifest's directory; absolute references stay as they are.
pub fn resolve_project_reference(project_path: &str, reference: &str) -> (resolved: String)
    ensures
        resolved@ == resolved_reference(project_path@, reference@),
{
    let root = match parent_path(project_path) {
        Some(parent) => parent,
        None => String::from_str("."),
    };
    join_paths(root.as_str(), reference)
}

/// The directory a project's files live in (see `project_root_path`).
pub fn project_root(project_file: &str) -> (root: String)
    ensures
        root@ == project_root_path(project_file@),
{
    match parent_path(project_file) {
        Some(parent) => {
            if parent.as_str().is_empty() {
                String::from_str(".")
            } else {
                parent
            }
        },
        None => String::from_str("."),
    }
}

impl RowlyProject {
    /// The declared sources with their paths resolved against the manifest's directory;
    /// directories are not listed and nothing is checked on disk.
    pub fn resolve_sources(&self, project_path: &str) -> (resolved: Vec<ResolvedSource>)
        ensures
            resolved@.len() == self.sources@.len(),
            forall|i: int|
                0 <= i < resolved@.len() ==> {
                    let source = self.sources@[i];
                    &&& (#[trigger] resolved@[i]).id@ == source.id@
                    &&& resolved@[i].kind == source.kind
                    &&& resolved@[i].path@ == resolved_reference(project_path@, source.path@)
                    &&& resolved@[i].recursive == source.recursive
                },
    {
        let mut resolved: Vec<ResolvedSource> = Vec::new();
        let mut index: usize = 0;
        while index < self.sources.len()
            invariant
                index <= self.sources@.len(),
                resolved@.len() == index,
                forall|i: int|
                    0 <= i < index ==> {
                        let source = self.sources@[i];
                        &&& (#[trigger] resolved@[i]).id@ == source.id@
                        &&& resolved@[i].kind == source.kind
                        &&& resolved@[i].path@ == resolved_reference(project_path@, source.path@)
                        &&& resolved@[i].recursive == source.recursive
                    },
            decreases self.sources@.len() - index,
        {
            let source = &self.sources[index];
            resolved.push(
                ResolvedSource {
                    id: source.id.clone(),
                    kind: source.kind,
                    path: resolve_project_reference(project_path, source.path.as_str()),
                    recursive: source.recursive,
                },
            );
            index += 1;
        }
        resolved
    }
}

/// The init manifest's contents: an import of the generated file, then of the user file.
pub open spec fn init_manifest_text(generated: Seq<char>, user: Seq<char>) -> Seq<char> {
    "IMPORT("@ + json_string_text(generated) + ")\nIMPORT("@ + json_string_text(user) + ")\n"@
}

impl ProjectScripts {
    /// The init manifest a valid layout must hold: exactly two imports, of the generated
    /// and the user file (their paths as JSON strings).
    pub fn expected_init_contents(&self) -> (result: Result<String, ProjectError>)
        ensures
            match result {
                Ok(text) => {
                    &&& layout_problem(
                        self.init@,
                        self.generated@,
                        self.user@,
                        self.macros@,
                    ) is None
                    &&& text@ == init_manifest_text(self.generated@, self.user@)
                },
                Err(ProjectError::Schema(message)) => {
                    let layout = layout_problem(self.init@, self.generated@, self.user@, self.macros@);
                    ||| layout == Some(message@)
                    ||| layout is None && relative_problem(self.generated@) == Some(message@)
                    ||| layout is None && relative_problem(self.generated@) is None && relative_problem(self.user@)
                        == Some(message@)
                },
                Err(_) => false,
            },
            result is Ok <==> layout_problem(self.init@, self.generated@, self.user@, self.macros@) is None
                && relative_problem(self.generated@) is None && relative_problem(self.user@) is None,
    {
        match self.validate_script_layout() {
            Ok(()) => {},
            Err(error) => {
                return Err(error);
            },
        }
        match validate_project_relative(self.generated.as_str()) {
            Ok(()) => {},
            Err(error) => {
                return Err(error);
            },
        }
        match validate_project_relative(self.user.as_str()) {
            Ok(()) => {},
            Err(error) => {
                return Err(error);
            },
        }
        let generated = match json_quote(self.generated.as_str()) {
            Ok(text) => text,
            Err(message) => {
                return Err(ProjectError::Schema(message));
            },
        };
        let user = match json_quote(self.user.as_str()) {
            Ok(text) => text,
            Err(message) => {
                return Err(ProjectError::Schema(message));
            },
        };
        let mut text = String::from_str("IMPORT(");
        text.append(generated.as_str());
        text.append(")\nIMPORT(");
        text.append(user.as_str());
        text.append(")\n");
        Ok(text)
    }

    /// Checks that the init manifest at `init_path` holds exactly the expected imports
    /// (`current` is what it holds).
    pub fn validate_init_manifest(&self, init_path: &str, current: &str) -> (result: Result<
        (),
        ProjectError,
    >)
        ensures
            match result {
                Ok(()) => {
                    &&& layout_problem(
                        self.init@,
                        self.generated@,
                        self.user@,
                        self.macros@,
                    ) is None
                    &&& current@ == init_manifest_text(self.generated@, self.user@)
                },
                Err(ProjectError::Schema(message)) => layout_problem(
                    self.init@,
                    self.generated@,
                    self.user@,
                    self.macros@,
                ) matches Some(problem) ==> problem == message@,
                Err(_) => false,
            },
    {
        let expected = match self.expected_init_contents() {
            Ok(text) => text,
            Err(error) => {
                return Err(error);
            },
        };
        if !str_equal(current, expected.as_str()) {
            return Err(
                ProjectError::Schema(
                    quoted_message(
                        "project init manifest `",
                        init_path,
                        "` contains unsupported content",
                    ),
                ),
            );
        }
        Ok(())
    }
}

/// The generated init script of `declarations`: one `SET_COLUMN_TYPE([header, type])`
/// line each, in order.
pub open spec fn generated_script_text(declarations: Seq<(Seq<char>, ColumnType)>) -> Seq<char>
    decreases declarations.len(),
{
    if declarations.len() == 0 {
        seq![]
    } else {
        generated_script_text(declarations.drop_last()) + "SET_COLUMN_TYPE("@ + json_pair_text(
            declarations.last().0,
            metadata_type_name(declarations.last().1),
        ) + ")\n"@
    }
}

/// The generated init script that persists the document's column type declarations
/// (see `generated_script_text`); only the JSON encoding of a line can fail.
pub fn generated_column_types_script(document: &CsvDocument) -> (result: Result<
    String,
    ProjectError,
>)
    ensures
        match result {
            Ok(text) => text@ == generated_script_text(document.spec_declarations()),
            Err(_) => false,
        },
{
    let declarations = document.column_type_declarations();
    let ghost entries = document.spec_declarations();
    let mut content = String::new();
    let mut index: usize = 0;
    while index < declarations.len()
        invariant
            index <= declarations@.len() == entries.len(),
            declarations@.map_values(|entry: (String, ColumnType)| (entry.0@, entry.1)) == entries,
            content@ == generated_script_text(entries.take(index as int)),
        decreases declarations@.len() - index,
    {
        let (header, column_type) = &declarations[index];
        assert(entries[index as int] == (header@, *column_type));
        let args = match json_pair(header.as_str(), column_type.as_metadata_str()) {
            Ok(args) => args,
            Err(message) => {
                return Err(ProjectError::Schema(message));
            },
        };
        content.append("SET_COLUMN_TYPE(");
        content.append(args.as_str());
        content.append(")\n");
        proof {
            let taken = entries.take(index + 1);
            assert(taken.drop_last() =~= entries.take(index as int));
            assert(taken.last() == entries[index as int]);
        }
        index += 1;
    }
    assert(entries.take(index as int) =~= entries);
    Ok(content)
}

/// The arguments of a `SET_COLUMN_TYPE(...)` line, once the line is trimmed.
pub open spec fn directive_args(line: Seq<char>) -> Option<Seq<char>> {
    let text = trim(line);
    let prefix = "SET_COLUMN_TYPE("@;
    if text.len() > prefix.len() && text.take(prefix.len() as int) == prefix && text.last() == ')' {
        Some(text.subrange(prefix.len() as int, text.len() - 1))
    } else {
        None
    }
}

/// What looking up the one column headed `header` fails with, as text.
pub open spec fn header_problem_text(rows: Rows, header: Seq<char>) -> Seq<char> {
    let found = header_columns(rows, header, max_width(rows) as int);
    if found.len() == 0 {
        "column header `"@ + header + "` was not found"@
    } else {
        "column header `"@ + header + "` is ambiguous across columns "@ + count_list_text(found)
    }
}

/// Line `number` (from one) of a generated init script, given the headers declared on
/// the lines before it: nothing for a blank line, else the declaration it makes, or why it
/// is refused.
pub open spec fn generated_line_read(
    rows: Rows,
    number: nat,
    line: Seq<char>,
    seen: Seq<Seq<char>>,
) -> Result<Option<(Seq<char>, ColumnType)>, Seq<char>> {
    if trim(line).len() == 0 {
        Ok(None)
    } else {
        match directive_args(line) {
            None => Err("unsupported generated init directive on line "@ + decimal_digits(number)),
            Some(args) => match json_string_list(args) {
                Err(message) => Err(
                    "invalid generated init line "@ + decimal_digits(number) + ": "@ + message,
                ),
                Ok(values) => if values.len() != 2 {
                    Err("SET_COLUMN_TYPE on line "@ + decimal_digits(number)
                        + " requires a header and type"@)
                } else {
                    match type_named(values[1]) {
                        None => Err("unsupported column type `"@ + values[1] + "`"@),
                        Some(column_type) => if seen.contains(values[0]) {
                            Err("generated init declares column `"@ + values[0]
                                + "` more than once"@)
                        } else if !unique_header(rows, values[0]) {
                            Err("generated column `"@ + values[0] + "` cannot be restored: "@
                                + header_problem_text(rows, values[0]))
                        } else {
                            Ok(Some((values[0], column_type)))
                        },
                    }
                },
            },
        }
    }
}

/// The declarations made by the first `count` lines, or why one of them is refused.
pub open spec fn generated_lines_read(rows: Rows, lines: Seq<Seq<char>>, count: int) -> Result<
    Seq<(Seq<char>, ColumnType)>,
    Seq<char>,
>
    decreases count,
{
    if count <= 0 {
        Ok(seq![])
    } else {
        match generated_lines_read(rows, lines, count - 1) {
            Err(message) => Err(message),
            Ok(declared) => match generated_line_read(
                rows,
                count as nat,
                lines[count - 1],
                declared.map_values(|entry: (Seq<char>, ColumnType)| entry.0),
            ) {
                Err(message) => Err(message),
                Ok(None) => Ok(declared),
                Ok(Some(entry)) => Ok(declared.push(entry)),
            },
        }
    }
}

/// The declarations of a whole generated init script.
pub open spec fn generated_script_read(rows: Rows, text: Seq<char>) -> Result<
    Seq<(Seq<char>, ColumnType)>,
    Seq<char>,
> {
    generated_lines_read(rows, text_lines(text), text_lines(text).len() as int)
}

proof fn lemma_header_problem_text(rows: Rows, header: Seq<char>, error: ColumnError)
    requires
        header_lookup_error(rows, header, error),
    ensures
        column_message(error) == header_problem_text(rows, header),
{
}

proof fn lemma_lines_read_stays_err(rows: Rows, lines: Seq<Seq<char>>, a: int, b: int)
    requires
        0 <= a <= b,
        generated_lines_read(rows, lines, a) is Err,
    ensures
        generated_lines_read(rows, lines, b) == generated_lines_read(rows, lines, a),
    decreases b - a,
{
    if b > a {
        lemma_lines_read_stays_err(rows, lines, a, b - 1);
    }
}

fn directive_arguments(line: &String) -> (args: Option<String>)
    ensures
        match args {
            Some(a) => directive_args(line@) == Some(a@),
            None => directive_args(line@) is None,
        },
{
    let chars = chars_of(line.as_str());
    let prefix = chars_of("SET_COLUMN_TYPE(");
    let bounds = trim_bounds(chars.as_slice(), 0, chars.len());
    let (start, end) = bounds;
    assert(chars@.subrange(0, chars@.len() as int) =~= line@);
    let ghost text = trim(line@);
    assert(text =~= chars@.subrange(start as int, end as int));
    if end - start <= prefix.len() {
        return None;
    }
    let mut k: usize = 0;
    while k < prefix.len()
        invariant
            start <= end <= chars@.len(),
            end - start > prefix@.len(),
            prefix@ == "SET_COLUMN_TYPE("@,
            text == chars@.subrange(start as int, end as int),
            text == trim(line@),
            k <= prefix@.len(),
            forall|i: int| 0 <= i < k ==> #[trigger] text[i] == prefix@[i],
        decreases prefix@.len() - k,
    {
        if chars[start + k] != prefix[k] {
            assert(text.take(prefix@.len() as int)[k as int] != prefix@[k as int]);
            return None;
        }
        k += 1;
    }
    assert(text.take(prefix@.len() as int) =~= prefix@);
    if chars[end - 1] != ')' {
        return None;
    }
    let args = string_of_range(chars.as_slice(), start + prefix.len(), end - 1);
    assert(args@ =~= text.subrange(prefix@.len() as int, text.len() - 1));
    Some(args)
}

fn declared_before(declared: &Vec<(String, ColumnType)>, header: &String) -> (found: bool)
    ensures
        found == declared@.map_values(|entry: (String, ColumnType)| entry.0@).contains(header@),
{
    let ghost headers = declared@.map_values(|entry: (String, ColumnType)| entry.0@);
    let mut index: usize = 0;
    while index < declared.len()
        invariant
            index <= declared@.len() == headers.len(),
            headers == declared@.map_values(|entry: (String, ColumnType)| entry.0@),
            forall|k: int| 0 <= k < index ==> #[trigger] headers[k] != header@,
        decreases declared@.len() - index,
    {
        if str_equal(declared[index].0.as_str(), header.as_str()) {
            assert(headers[index as int] == header@);
            return true;
        }
        index += 1;
    }
    false
}

fn line_number_message(lead: &str, number: usize, tail: &str) -> (text: String)
    ensures
        text@ == lead@ + decimal_digits(number as nat) + tail@,
{
    let digits = count_to_string(number);
    let mut text = String::from_str(lead);
    text.append(digits.as_str());
    text.append(tail);
    text
}

fn read_generated_line(
    line: &String,
    number: usize,
    declared: &Vec<(String, ColumnType)>,
    document: &CsvDocument,
) -> (result: Result<Option<(String, ColumnType)>, String>)
    requires
        document.wf(),
    ensures
        ({
            let read = generated_line_read(
                document@,
                number as nat,
                line@,
                declared@.map_values(|entry: (String, ColumnType)| entry.0@),
            );
            match result {
                Err(message) => read == Err::<Option<(Seq<char>, ColumnType)>, Seq<char>>(
                    message@,
                ),
                Ok(None) => read == Ok::<Option<(Seq<char>, ColumnType)>, Seq<char>>(None),
                Ok(Some(entry)) => read == Ok::<Option<(Seq<char>, ColumnType)>, Seq<char>>(
                    Some((entry.0@, entry.1)),
                ) && unique_header(document@, entry.0@),
            }
        }),
{
    if is_blank(line.as_str()) {
        return Ok(None);
    }
    let args = match directive_arguments(line) {
        Some(args) => args,
        None => {
            proof {
                reveal_strlit("");
            }
            let text = line_number_message("unsupported generated init directive on line ", number, "");
            assert(text@ =~= "unsupported generated init directive on line "@ + decimal_digits(number as nat));
            return Err(text);
        },
    };
    let values = match parse_json_strings(args.as_str()) {
        Ok(values) => values,
        Err(message) => {
            let mut text = line_number_message("invalid generated init line ", number, ": ");
            text.append(message.as_str());
            return Err(text);
        },
    };
    if values.len() != 2 {
        return Err(
            line_number_message("SET_COLUMN_TYPE on line ", number, " requires a header and type"),
        );
    }
    assert(values@.map_values(|item: String| item@)[0] == values@[0]@);
    assert(values@.map_values(|item: String| item@)[1] == values@[1]@);
    let column_type = match ColumnType::from_metadata_str(values[1].as_str()) {
        Some(column_type) => column_type,
        None => {
            return Err(quoted_message("unsupported column type `", values[1].as_str(), "`"));
        },
    };
    if declared_before(declared, &values[0]) {
        return Err(
            quoted_message(
                "generated init declares column `",
                values[0].as_str(),
                "` more than once",
            ),
        );
    }
    match document.column_type_declaration_by_header(values[0].as_str()) {
        Err(error) => {
            let mut text = quoted_message(
                "generated column `",
                values[0].as_str(),
                "` cannot be restored: ",
            );
            let reason = error.to_string();
            proof {
                if let DocumentError::Column(inner) = error {
                    lemma_header_problem_text(document@, values@[0]@, inner);
                }
            }
            text.append(reason.as_str());
            Err(text)
        },
        Ok(_) => Ok(Some((values[0].clone(), column_type))),
    }
}

/// Reads the column type declarations of a generated init script (see
/// `generated_script_read`); every declared header must head exactly one column of the
/// document. Nothing else in the script is run.
pub fn parse_generated_column_types(text: &str, document: &CsvDocument) -> (result: Result<
    Vec<(String, ColumnType)>,
    ProjectError,
>)
    requires
        document.wf(),
    ensures
        match result {
            Ok(declared) => {
                &&& generated_script_read(document@, text@) == Ok::<
                    Seq<(Seq<char>, ColumnType)>,
                    Seq<char>,
                >(declared@.map_values(|entry: (String, ColumnType)| (entry.0@, entry.1)))
                &&& forall|k: int|
                    0 <= k < declared@.len() ==> unique_header(
                        document@,
                        (#[trigger] declared@[k]).0@,
                    )
            },
            Err(ProjectError::Schema(message)) => generated_script_read(document@, text@) == Err::<
                Seq<(Seq<char>, ColumnType)>,
                Seq<char>,
            >(message@),
            Err(_) => false,
        },
{
    let lines = lines_of(text);
    let ghost all = text_lines(text@);
    let rows = document.row_count();
    let mut declared: Vec<(String, ColumnType)> = Vec::new();
    let mut index: usize = 0;
    assert(declared@.map_values(|entry: (String, ColumnType)| (entry.0@, entry.1)) =~= seq![]);
    while index < lines.len()
        invariant
            document.wf(),
            index <= lines@.len() == all.len(),
            all == text_lines(text@),
            lines@.map_values(|line: String| line@) == all,
            generated_lines_read(document@, all, index as int) == Ok::<
                Seq<(Seq<char>, ColumnType)>,
                Seq<char>,
            >(declared@.map_values(|entry: (String, ColumnType)| (entry.0@, entry.1))),
            forall|k: int|
                0 <= k < declared@.len() ==> unique_header(document@, (#[trigger] declared@[k]).0@),
        decreases lines@.len() - index,
    {
        let line = &lines[index];
        assert(all[index as int] == line@);
        let number = index + 1;
        let ghost before = declared@.map_values(|entry: (String, ColumnType)| (entry.0@, entry.1));
        assert(before.map_values(|entry: (Seq<char>, ColumnType)| entry.0) =~= declared@.map_values(
            |entry: (String, ColumnType)| entry.0@,
        ));
        let ghost read = generated_line_read(
            document@,
            number as nat,
            line@,
            before.map_values(|entry: (Seq<char>, ColumnType)| entry.0),
        );
        assert(generated_lines_read(document@, all, index + 1) == match read {
            Err(message) => Err(message),
            Ok(None) => Ok(before),
            Ok(Some(entry)) => Ok(before.push(entry)),
        });
        let failure: Option<String> = match read_generated_line(line, number, &declared, document) {
            Err(message) => Some(message),
            Ok(None) => None,
            Ok(Some(entry)) => {
                declared.push(entry);
                assert(declared@.map_values(|entry: (String, ColumnType)| (entry.0@, entry.1))
                    =~= before.push((entry.0@, entry.1)));
                None
            },
        };
        match failure {
            Some(message) => {
                proof {
                    lemma_lines_read_stays_err(document@, all, index + 1, all.len() as int);
                }
                return Err(ProjectError::Schema(message));
            },
            None => {},
        }
        index += 1;
    }
    Ok(declared)
}

proof fn lemma_last_declared_prefix(list: Seq<(Seq<char>, ColumnType)>, count: int, h: Seq<char>)
    requires
        0 <= count < list.len(),
    ensures
        last_declared(list.take(count + 1), h) == if list[count].0 == h {
            Some(list[count].1)
        } else {
            last_declared(list.take(count), h)
        },
{
    assert(list.take(count + 1).drop_last() =~= list.take(count));
}

/// Replaces the document's column type declarations by those of a generated init script;
/// when the script is refused, the declarations are left as they were. The table and its
/// history are untouched.
pub fn restore_generated_column_types(document: &mut CsvDocument, text: &str) -> (result: Result<
    (),
    ProjectError,
>)
    requires
        old(document).wf(),
    ensures
        final(document).wf(),
        same_edits(*final(document), *old(document)),
        match result {
            Ok(()) => generated_script_read(old(document)@, text@) matches Ok(list) && forall|
                h: Seq<char>,
            | #[trigger] declared_type(final(document).spec_declarations(), h) == last_declared(
                list,
                h,
            ),
            Err(ProjectError::Schema(message)) => {
                &&& generated_script_read(old(document)@, text@) == Err::<
                    Seq<(Seq<char>, ColumnType)>,
                    Seq<char>,
                >(message@)
                &&& final(document).spec_declarations() == old(document).spec_declarations()
            },
            Err(_) => false,
        },
{
    let declarations = match parse_generated_column_types(text, document) {
        Ok(declarations) => declarations,
        Err(error) => {
            return Err(error);
        },
    };
    let ghost list = declarations@.map_values(|entry: (String, ColumnType)| (entry.0@, entry.1));
    let ghost start = *document;
    document.clear_column_type_declarations();
    let mut index: usize = 0;
    while index < declarations.len()
        invariant
            document.wf(),
            index <= declarations@.len() == list.len(),
            list == declarations@.map_values(|entry: (String, ColumnType)| (entry.0@, entry.1)),
            same_edits(*document, start),
            start == *old(document),
            forall|k: int|
                0 <= k < declarations@.len() ==> unique_header(
                    start@,
                    (#[trigger] declarations@[k]).0@,
                ),
            forall|h: Seq<char>| #[trigger]
                declared_type(document.spec_declarations(), h) == last_declared(
                    list.take(index as int),
                    h,
                ),
        decreases declarations@.len() - index,
    {
        let (header, column_type) = &declarations[index];
        assert(list[index as int] == (header@, *column_type));
        assert(unique_header(start@, declarations@[index as int].0@));
        match document.set_column_type_declaration_by_header(header.as_str(), *column_type) {
            Ok(()) => {},
            Err(error) => {
                return Err(ProjectError::Schema(error.to_string()));
            },
        }
        proof {
            assert forall|h: Seq<char>| #[trigger]
                declared_type(document.spec_declarations(), h) == last_declared(
                    list.take(index + 1),
                    h,
                ) by {
                lemma_last_declared_prefix(list, index as int, h);
            }
        }
        index += 1;
    }
    assert(list.take(index as int) =~= list);
    Ok(())
}

} // verus!
