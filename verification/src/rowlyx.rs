//! `.rowlyx` project archives (ZIP containers): which entries an archive may hold, where
//! each is extracted, and the one project manifest it must contain. Reading and writing
//! the ZIP container itself is left to the program around the library.

use vstd::prelude::*;

use crate::json::JsonValue;
use crate::logical_table::{components_of, file_name_of, last_dot, path_components};
use crate::process::document::str_equal;
use crate::project::{
    is_absolute_path, join_path, join_paths, path_segments, project_message, project_problem,
    project_read, resolve_project_reference, resolved_reference, split_path, ProjectError,
    RowlyProject, SourceKind,
};
use crate::text::{chars_of, count_to_string, decimal_digits, string_of};

verus! {

/// Why an archive could not be packed, opened or extracted.
#[derive(Debug, Clone, PartialEq, Eq)]
pub enum RowlyxError {
    Project(ProjectError),
    Io { path: String, message: String },
    Archive(String),
    UnsafeEntry(String),
    DuplicateEntry(String),
    ProjectDefinitionCount(usize),
    Manifest(String),
    InvalidReference(String),
    UnsupportedLink(String),
    DestinationNotEmpty(String),
}

/// The message of an archive error.
pub open spec fn rowlyx_message(error: RowlyxError) -> Seq<char> {
    match error {
        RowlyxError::Project(inner) => "project error: "@ + project_message(inner),
        RowlyxError::Io { path, message } => "failed to access `"@ + path@ + "`: "@ + message@,
        RowlyxError::Archive(text) => "invalid or damaged rowlyx archive: "@ + text@,
        RowlyxError::UnsafeEntry(name) => "unsafe archive entry path `"@ + name@ + "`"@,
        RowlyxError::DuplicateEntry(name) => "archive contains duplicate entry `"@ + name@ + "`"@,
        RowlyxError::ProjectDefinitionCount(count) =>
            "archive must contain exactly one `.rwprj` manifest, found "@ + decimal_digits(
            count as nat,
        ),
        RowlyxError::Manifest(text) => "invalid project manifest inside archive: "@ + text@,
        RowlyxError::InvalidReference(text) => "project reference is invalid or escapes its root: "@
            + text@,
        RowlyxError::UnsupportedLink(path) =>
            "project path is a symbolic link and cannot be packaged safely: "@ + path@,
        RowlyxError::DestinationNotEmpty(path) => "extract destination is not empty: "@ + path@,
    }
}

fn wrapped(lead: &str, text: &str, tail: &str) -> (message: String)
    ensures
        message@ == lead@ + text@ + tail@,
{
    let mut message = String::from_str(lead);
    message.append(text);
    message.append(tail);
    message
}

impl RowlyxError {
    /// The error's message (see `rowlyx_message`).
    pub fn to_string(&self) -> (text: String)
        ensures
            text@ == rowlyx_message(*self),
    {
        proof {
            reveal_strlit("");
        }
        let text = match self {
            RowlyxError::Project(inner) => {
                let reason = inner.to_string();
                wrapped("project error: ", reason.as_str(), "")
            },
            RowlyxError::Io { path, message } => {
                let mut text = wrapped("failed to access `", path.as_str(), "`: ");
                text.append(message.as_str());
                text
            },
            RowlyxError::Archive(text) => wrapped(
                "invalid or damaged rowlyx archive: ",
                text.as_str(),
                "",
            ),
            RowlyxError::UnsafeEntry(name) => wrapped("unsafe archive entry path `", name.as_str(), "`"),
            RowlyxError::DuplicateEntry(name) => wrapped(
                "archive contains duplicate entry `",
                name.as_str(),
                "`",
            ),
            RowlyxError::ProjectDefinitionCount(count) => {
                let digits = count_to_string(*count);
                wrapped(
                    "archive must contain exactly one `.rwprj` manifest, found ",
                    digits.as_str(),
                    "",
                )
            },
            RowlyxError::Manifest(text) => wrapped(
                "invalid project manifest inside archive: ",
                text.as_str(),
                "",
            ),
            RowlyxError::InvalidReference(text) => wrapped(
                "project reference is invalid or escapes its root: ",
                text.as_str(),
                "",
            ),
            RowlyxError::UnsupportedLink(path) => wrapped(
                "project path is a symbolic link and cannot be packaged safely: ",
                path.as_str(),
                "",
            ),
            RowlyxError::DestinationNotEmpty(path) => wrapped(
                "extract destination is not empty: ",
                path.as_str(),
                "",
            ),
        };
        assert(text@ =~= rowlyx_message(*self));
        text
    }
}

/// A path as an archive names it: backslashes turned into `/`.
pub open spec fn zip_name_text(path: Seq<char>) -> Seq<char> {
    path.map_values(|c: char| if c == '\\' { '/' } else { c })
}

/// The name an archive gives a path (see `zip_name_text`).
pub fn zip_name(path: &str) -> (name: String)
    ensures
        name@ == zip_name_text(path@),
{
    let chars = chars_of(path);
    let mut out: Vec<char> = Vec::new();
    let mut index: usize = 0;
    while index < chars.len()
        invariant
            chars@ == path@,
            index <= chars@.len(),
            out@ == zip_name_text(path@.take(index as int)),
        decreases chars@.len() - index,
    {
        let c = chars[index];
        out.push(if c == '\\' {
            '/'
        } else {
            c
        });
        assert(zip_name_text(path@.take(index + 1)) =~= zip_name_text(path@.take(index as int)).push(
            if c == '\\' {
                '/'
            } else {
                c
            },
        ));
        index += 1;
    }
    assert(path@.take(index as int) =~= path@);
    string_of(out.as_slice())
}

/// A path an archive entry may have: not empty, no backslash, not from the root, no drive
/// letter (`C:`), and made of plain names only (no leading `.` and no `..`).
pub open spec fn is_safe_relative(path: Seq<char>) -> bool {
    let segments = path_segments(path);
    &&& path.len() > 0
    &&& !path.contains('\\')
    &&& path[0] != '/'
    &&& !(path.len() >= 2 && (path[0] as u32) < 128 && path[1] == ':')
    &&& forall|i: int| 0 <= i < segments.len() ==> #[trigger] segments[i] != ".."@
    &&& !(segments.len() > 0 && segments[0] == "."@)
}

/// Whether an archive entry path is safe (see `is_safe_relative`).
pub fn safe_relative_path(path: &str) -> (safe: bool)
    ensures
        safe == is_safe_relative(path@),
{
    let chars = chars_of(path);
    if chars.len() == 0 {
        return false;
    }
    let mut index: usize = 0;
    while index < chars.len()
        invariant
            chars@ == path@,
            index <= chars@.len(),
            forall|k: int| 0 <= k < index ==> chars@[k] != '\\',
        decreases chars@.len() - index,
    {
        if chars[index] == '\\' {
            assert(path@[index as int] == '\\');
            return false;
        }
        index += 1;
    }
    if chars[0] == '/' {
        return false;
    }
    if chars.len() >= 2 && (chars[0] as u32) < 128 && chars[1] == ':' {
        return false;
    }
    let segments = split_path(path);
    let ghost parts = path_segments(path@);
    let mut k: usize = 0;
    while k < segments.len()
        invariant
            k <= segments@.len() == parts.len(),
            parts == segments@.map_values(|segment: String| segment@),
            parts == path_segments(path@),
            forall|i: int| 0 <= i < k ==> #[trigger] parts[i] != ".."@,
        decreases segments@.len() - k,
    {
        assert(parts[k as int] == segments@[k as int]@);
        if str_equal(segments[k].as_str(), "..") {
            return false;
        }
        k += 1;
    }
    if segments.len() > 0 {
        assert(parts[0] == segments@[0]@);
        if str_equal(segments[0].as_str(), ".") {
            return false;
        }
    }
    true
}

/// What the program reading a ZIP container reports of one entry: its name as stored,
/// that name as a path inside the archive when it is one (`enclosed_name`), whether it
/// is a directory, and its Unix mode when it has one.
#[derive(Debug, Clone, PartialEq, Eq)]
pub struct ArchiveEntry {
    pub name: String,
    pub enclosed_name: Option<String>,
    pub is_dir: bool,
    pub unix_mode: Option<u32>,
}

/// A Unix mode of a symbolic link.
pub open spec fn is_link_mode(mode: Option<u32>) -> bool {
    match mode {
        Some(bits) => bits & 0o170000u32 == 0o120000u32,
        None => false,
    }
}

/// Why an archive entry is refused.
#[derive(Debug, Clone, Copy, PartialEq, Eq, Structural)]
pub enum EntryProblem {
    Unsafe,
    Duplicate,
    Link,
}

/// Why `entry` is refused given the names of the entries before it, with the name the
/// refusal reports.
pub open spec fn entry_problem(entry: ArchiveEntry, names: Seq<Seq<char>>) -> Option<
    (EntryProblem, Seq<char>),
> {
    match entry.enclosed_name {
        None => Some((EntryProblem::Unsafe, entry.name@)),
        Some(enclosed) => if !is_safe_relative(enclosed@) {
            Some((EntryProblem::Unsafe, entry.name@))
        } else if names.contains(zip_name_text(enclosed@)) {
            Some((EntryProblem::Duplicate, zip_name_text(enclosed@)))
        } else if is_link_mode(entry.unix_mode) {
            Some((EntryProblem::Link, entry.name@))
        } else {
            None
        },
    }
}

/// The parts of a path other than `.`.
pub open spec fn named_parts(segments: Seq<Seq<char>>) -> nat
    decreases segments.len(),
{
    if segments.len() == 0 {
        0
    } else {
        named_parts(segments.drop_last()) + if segments.last() == "."@ {
            0nat
        } else {
            1nat
        }
    }
}

/// A file at the top of the archive whose name ends in `.rwprj`.
pub open spec fn is_manifest_entry(entry: ArchiveEntry) -> bool {
    &&& !entry.is_dir
    &&& entry.enclosed_name matches Some(enclosed)
    &&& named_parts(path_segments(enclosed@)) == 1
    &&& file_name_of(path_segments(enclosed@)) matches Some(name)
    &&& last_dot(name) > 0
    &&& name.subrange(last_dot(name) + 1, name.len() as int) == "rwprj"@
}

/// The archive names of entries `0..count`.
pub open spec fn entry_names(entries: Seq<ArchiveEntry>, count: int) -> Seq<Seq<char>>
    decreases count,
{
    if count <= 0 {
        seq![]
    } else {
        entry_names(entries, count - 1).push(zip_name_text(entries[count - 1].enclosed_name.unwrap()@))
    }
}

/// The first refusal among entries `0..count`.
pub open spec fn entries_problem(entries: Seq<ArchiveEntry>, count: int) -> Option<
    (EntryProblem, Seq<char>),
>
    decreases count,
{
    if count <= 0 {
        None
    } else {
        match entries_problem(entries, count - 1) {
            Some(problem) => Some(problem),
            None => entry_problem(entries[count - 1], entry_names(entries, count - 1)),
        }
    }
}

/// The paths of the manifest entries among `0..count`, in order.
pub open spec fn manifest_paths(entries: Seq<ArchiveEntry>, count: int) -> Seq<Seq<char>>
    decreases count,
{
    if count <= 0 {
        seq![]
    } else if is_manifest_entry(entries[count - 1]) {
        manifest_paths(entries, count - 1).push(entries[count - 1].enclosed_name.unwrap()@)
    } else {
        manifest_paths(entries, count - 1)
    }
}

proof fn lemma_entries_problem_stays(entries: Seq<ArchiveEntry>, a: int, b: int)
    requires
        0 <= a <= b,
        entries_problem(entries, a) is Some,
    ensures
        entries_problem(entries, b) == entries_problem(entries, a),
    decreases b - a,
{
    if b > a {
        lemma_entries_problem_stays(entries, a, b - 1);
    }
}

fn is_manifest(entry: &ArchiveEntry) -> (manifest: bool)
    ensures
        manifest == is_manifest_entry(*entry),
{
    proof {
        reveal_strlit("rwprj");
    }
    if entry.is_dir {
        return false;
    }
    let enclosed = match &entry.enclosed_name {
        Some(enclosed) => enclosed,
        None => {
            return false;
        },
    };
    let segments = split_path(enclosed.as_str());
    let ghost parts = path_segments(enclosed@);
    let mut named: usize = 0;
    let mut index: usize = 0;
    while index < segments.len()
        invariant
            index <= segments@.len() == parts.len(),
            parts == segments@.map_values(|segment: String| segment@),
            named == named_parts(parts.take(index as int)),
            named <= index,
        decreases segments@.len() - index,
    {
        assert(parts.take(index + 1).drop_last() =~= parts.take(index as int));
        assert(parts.take(index + 1).last() == segments@[index as int]@);
        if !str_equal(segments[index].as_str(), ".") {
            named += 1;
        }
        index += 1;
    }
    assert(parts.take(index as int) =~= parts);
    if named != 1 {
        return false;
    }
    let mut end = segments.len();
    assert(parts.take(end as int) =~= parts);
    while end > 0 && str_equal(segments[end - 1].as_str(), ".")
        invariant
            end <= segments@.len() == parts.len(),
            parts == segments@.map_values(|segment: String| segment@),
            file_name_of(parts) == file_name_of(parts.take(end as int)),
        decreases end,
    {
        assert(parts.take(end as int).drop_last() =~= parts.take(end - 1));
        end -= 1;
    }
    if end == 0 {
        return false;
    }
    assert(parts.take(end as int).last() == segments@[end - 1]@);
    if str_equal(segments[end - 1].as_str(), "..") {
        return false;
    }
    let name = chars_of(segments[end - 1].as_str());
    let ghost whole = segments@[end - 1]@;
    let mut dot = name.len();
    assert(whole.take(dot as int) =~= whole);
    while dot > 0 && name[dot - 1] != '.'
        invariant
            dot <= name@.len(),
            name@ == whole,
            last_dot(whole) == last_dot(whole.take(dot as int)),
        decreases dot,
    {
        assert(whole.take(dot as int).drop_last() =~= whole.take(dot - 1));
        dot -= 1;
    }
    if dot <= 1 {
        assert(dot == 1 ==> whole.take(1).last() == '.');
        return false;
    }
    let dot = dot - 1;
    assert(whole.take(dot + 1).last() == '.');
    let extension = crate::text::string_of_range(name.as_slice(), dot + 1, name.len());
    str_equal(extension.as_str(), "rwprj")
}

/// The checks an archive's entries must pass before anything is extracted: each has a
/// safe path, no two share a name, none is a symbolic link, and exactly one is a
/// manifest at the top. Gives the manifest's path.
pub fn check_entries(entries: &Vec<ArchiveEntry>) -> (result: Result<String, RowlyxError>)
    ensures
        match result {
            Ok(manifest) => {
                &&& entries_problem(entries@, entries@.len() as int) is None
                &&& manifest_paths(entries@, entries@.len() as int) == seq![manifest@]
            },
            Err(RowlyxError::UnsafeEntry(name)) => entries_problem(entries@, entries@.len() as int)
                == Some((EntryProblem::Unsafe, name@)),
            Err(RowlyxError::DuplicateEntry(name)) => entries_problem(
                entries@,
                entries@.len() as int,
            ) == Some((EntryProblem::Duplicate, name@)),
            Err(RowlyxError::UnsupportedLink(name)) => entries_problem(
                entries@,
                entries@.len() as int,
            ) == Some((EntryProblem::Link, name@)),
            Err(RowlyxError::ProjectDefinitionCount(count)) => {
                &&& entries_problem(entries@, entries@.len() as int) is None
                &&& manifest_paths(entries@, entries@.len() as int).len() == count
                &&& count != 1
            },
            Err(_) => false,
        },
{
    let mut names: Vec<String> = Vec::new();
    let mut manifests: Vec<String> = Vec::new();
    let mut index: usize = 0;
    while index < entries.len()
        invariant
            index <= entries@.len(),
            entries_problem(entries@, index as int) is None,
            names@.map_values(|name: String| name@) == entry_names(entries@, index as int),
            manifests@.map_values(|path: String| path@) == manifest_paths(entries@, index as int),
        decreases entries@.len() - index,
    {
        let entry = &entries[index];
        let ghost earlier = entry_names(entries@, index as int);
        proof {
            assert(entries_problem(entries@, index + 1) == entry_problem(*entry, earlier));
        }
        let enclosed = match &entry.enclosed_name {
            Some(enclosed) => enclosed,
            None => {
                proof {
                    lemma_entries_problem_stays(entries@, index + 1, entries@.len() as int);
                }
                return Err(RowlyxError::UnsafeEntry(entry.name.clone()));
            },
        };
        if !safe_relative_path(enclosed.as_str()) {
            proof {
                lemma_entries_problem_stays(entries@, index + 1, entries@.len() as int);
            }
            return Err(RowlyxError::UnsafeEntry(entry.name.clone()));
        }
        let name = zip_name(enclosed.as_str());
        let mut seen = false;
        let mut k: usize = 0;
        while k < names.len()
            invariant
                k <= names@.len(),
                names@.map_values(|name: String| name@) == earlier,
                !seen ==> forall|j: int| 0 <= j < k ==> #[trigger] earlier[j] != name@,
                seen ==> earlier.contains(name@),
            decreases names@.len() - k,
        {
            if str_equal(names[k].as_str(), name.as_str()) {
                assert(earlier[k as int] == name@);
                seen = true;
            }
            k += 1;
        }
        if seen {
            proof {
                lemma_entries_problem_stays(entries@, index + 1, entries@.len() as int);
            }
            return Err(RowlyxError::DuplicateEntry(name));
        }
        assert(!earlier.contains(name@));
        let is_link = match entry.unix_mode {
            Some(mode) => mode & 0o170000u32 == 0o120000u32,
            None => false,
        };
        if is_link {
            proof {
                lemma_entries_problem_stays(entries@, index + 1, entries@.len() as int);
            }
            return Err(RowlyxError::UnsupportedLink(entry.name.clone()));
        }
        let manifest = is_manifest(entry);
        let ghost names_before = names@.map_values(|name: String| name@);
        names.push(name);
        assert(names@.map_values(|name: String| name@) =~= names_before.push(zip_name_text(enclosed@)));
        if manifest {
            let ghost before = manifests@.map_values(|path: String| path@);
            manifests.push(enclosed.clone());
            assert(manifests@.map_values(|path: String| path@) =~= before.push(enclosed@));
        }
        index += 1;
    }
    if manifests.len() != 1 {
        return Err(RowlyxError::ProjectDefinitionCount(manifests.len()));
    }
    let manifest = manifests[0].clone();
    assert(manifest_paths(entries@, entries@.len() as int) =~= seq![manifest@]);
    Ok(manifest)
}

/// Why a parsed manifest is not a valid project, if it is not.
pub open spec fn manifest_refusal(value: JsonValue) -> Option<Seq<char>> {
    match project_read(value) {
        Err(message) => Some(message),
        Ok(view) => project_problem(view),
    }
}

/// An archive whose entries passed `check_entries` and whose manifest is a valid
/// project.
#[derive(Debug, Clone, PartialEq, Eq)]
pub struct RowlyxArchive {
    path: String,
    project_entry: String,
}

impl RowlyxArchive {
    /// The archive's file.
    pub closed spec fn spec_path(&self) -> Seq<char> {
        self.path@
    }

    /// The manifest's path inside the archive.
    pub closed spec fn spec_project_entry(&self) -> Seq<char> {
        self.project_entry@
    }

    /// Accepts the archive at `path` whose manifest entry is `project_entry`, once its
    /// parsed manifest is a valid project.
    pub fn accept(path: String, project_entry: String, manifest: &JsonValue) -> (result: Result<
        RowlyxArchive,
        RowlyxError,
    >)
        ensures
            match result {
                Ok(archive) => {
                    &&& archive.spec_path() == path@
                    &&& archive.spec_project_entry() == project_entry@
                    &&& manifest_refusal(*manifest) is None
                },
                Err(RowlyxError::Manifest(message)) => manifest_refusal(*manifest) matches Some(
                    problem,
                ) && message@ == "invalid Rowly project schema: "@ + problem,
                Err(_) => false,
            },
    {
        match RowlyProject::from_json(manifest) {
            Ok(_) => Ok(RowlyxArchive { path, project_entry }),
            Err(error) => Err(RowlyxError::Manifest(error.to_string())),
        }
    }

    /// The archive's file.
    pub fn path(&self) -> (path: &str)
        ensures
            path@ == self.spec_path(),
    {
        self.path.as_str()
    }

    /// The manifest's path inside the archive.
    pub fn project_entry(&self) -> (entry: &str)
        ensures
            entry@ == self.spec_project_entry(),
    {
        self.project_entry.as_str()
    }

    /// Where the manifest lands when the archive is extracted into `root`.
    pub fn extracted_project_path(&self, root: &str) -> (path: String)
        ensures
            path@ == join_path(root@, self.spec_project_entry()),
    {
        join_paths(root, self.project_entry.as_str())
    }
}

/// Where `entry` is written when the archive is extracted into `root`: links and unsafe
/// paths are refused.
pub fn extraction_target(root: &str, entry: &ArchiveEntry) -> (result: Result<String, RowlyxError>)
    ensures
        match result {
            Ok(target) => {
                &&& !is_link_mode(entry.unix_mode)
                &&& entry.enclosed_name matches Some(enclosed)
                &&& is_safe_relative(enclosed@)
                &&& target@ == join_path(root@, enclosed@)
            },
            Err(RowlyxError::UnsupportedLink(name)) => is_link_mode(entry.unix_mode) && name@
                == entry.name@,
            Err(RowlyxError::UnsafeEntry(name)) => {
                &&& !is_link_mode(entry.unix_mode)
                &&& name@ == entry.name@
                &&& match entry.enclosed_name {
                    Some(enclosed) => !is_safe_relative(enclosed@),
                    None => true,
                }
            },
            Err(_) => false,
        },
{
    let is_link = match entry.unix_mode {
        Some(mode) => mode & 0o170000u32 == 0o120000u32,
        None => false,
    };
    if is_link {
        return Err(RowlyxError::UnsupportedLink(entry.name.clone()));
    }
    let enclosed = match &entry.enclosed_name {
        Some(enclosed) => enclosed,
        None => {
            return Err(RowlyxError::UnsafeEntry(entry.name.clone()));
        },
    };
    if !safe_relative_path(enclosed.as_str()) {
        return Err(RowlyxError::UnsafeEntry(entry.name.clone()));
    }
    Ok(join_paths(root, enclosed.as_str()))
}

/// The parts left after walking `components` (as `path_components` gives them): `.` is
/// skipped, `..` removes the part before it, names are kept; nothing when a `..` has no
/// part before it or a root appears.
pub open spec fn clean_components(components: Seq<(int, Seq<char>)>) -> Option<Seq<Seq<char>>>
    decreases components.len(),
{
    if components.len() == 0 {
        Some(seq![])
    } else {
        match clean_components(components.drop_last()) {
            None => None,
            Some(parts) => {
                let last = components.last();
                if last.0 == 1 {
                    Some(parts)
                } else if last.0 == 2 {
                    if parts.len() > 0 {
                        Some(parts.drop_last())
                    } else {
                        None
                    }
                } else if last.0 == 3 {
                    Some(parts.push(last.1))
                } else {
                    None
                }
            },
        }
    }
}

/// `path` (taken from `root` when relative) as parts below `root`
/// (`Path::strip_prefix`, then `.` and `..` resolved); nothing when it is not below
/// `root` or climbs out of it.
pub open spec fn lexical_relative_parts(root: Seq<char>, path: Seq<char>) -> Option<Seq<Seq<char>>> {
    let absolute = if is_absolute_path(path) {
        path
    } else {
        join_path(root, path)
    };
    let base = path_components(root);
    let full = path_components(absolute);
    if base.len() <= full.len() && full.take(base.len() as int) == base {
        clean_components(full.skip(base.len() as int))
    } else {
        None
    }
}

/// `parts` joined by `/`.
pub open spec fn joined_parts(parts: Seq<Seq<char>>) -> Seq<char>
    decreases parts.len(),
{
    if parts.len() == 0 {
        seq![]
    } else if parts.len() == 1 {
        parts[0]
    } else {
        joined_parts(parts.drop_last()) + "/"@ + parts.last()
    }
}

fn join_parts(parts: &Vec<String>) -> (text: String)
    ensures
        text@ == joined_parts(parts@.map_values(|part: String| part@)),
{
    let ghost all = parts@.map_values(|part: String| part@);
    let mut text = String::new();
    let mut index: usize = 0;
    proof {
        reveal_strlit("");
    }
    assert(joined_parts(all.take(0)) =~= ""@);
    while index < parts.len()
        invariant
            index <= parts@.len(),
            all == parts@.map_values(|part: String| part@),
            text@ == joined_parts(all.take(index as int)),
        decreases parts@.len() - index,
    {
        assert(all.take(index + 1).drop_last() =~= all.take(index as int));
        assert(all.take(index + 1).last() == parts@[index as int]@);
        if index > 0 {
            text.append("/");
        } else {
            assert(all.take(1) =~= seq![parts@[0]@]);
            assert(text@ =~= Seq::<char>::empty());
        }
        text.append(parts[index].as_str());
        proof {
            if index == 0 {
                assert(text@ =~= joined_parts(all.take(1)));
            }
        }
        index += 1;
    }
    assert(all.take(index as int) =~= all);
    text
}

/// `path` relative to `root`, its parts joined by `/` (see `lexical_relative_parts`).
pub fn lexical_relative(root: &str, path: &str) -> (relative: Option<String>)
    ensures
        match relative {
            Some(text) => lexical_relative_parts(root@, path@) matches Some(parts) && text@
                == joined_parts(parts),
            None => lexical_relative_parts(root@, path@) is None,
        },
{
    let absolute = if !path.is_empty() && is_root_path(path) {
        String::from_str(path)
    } else {
        join_paths(root, path)
    };
    let root_text = String::from_str(root);
    let base = components_of(&root_text);
    let full = components_of(&absolute);
    let ghost b = base@.map_values(|part: (u8, String)| (part.0 as int, part.1@));
    let ghost f = full@.map_values(|part: (u8, String)| (part.0 as int, part.1@));
    let ghost target = if is_absolute_path(path@) {
        path@
    } else {
        join_path(root@, path@)
    };
    assert(absolute@ == target);
    assert(b == path_components(root@));
    assert(f == path_components(target));
    if base.len() > full.len() {
        return None;
    }
    let mut k: usize = 0;
    while k < base.len()
        invariant
            base@.len() <= full@.len(),
            k <= base@.len(),
            b == base@.map_values(|part: (u8, String)| (part.0 as int, part.1@)),
            f == full@.map_values(|part: (u8, String)| (part.0 as int, part.1@)),
            b == path_components(root@),
            f == path_components(target),
            target == if is_absolute_path(path@) {
                path@
            } else {
                join_path(root@, path@)
            },
            forall|i: int| 0 <= i < k ==> #[trigger] f[i] == b[i],
        decreases base@.len() - k,
    {
        if base[k].0 != full[k].0 || !str_equal(base[k].1.as_str(), full[k].1.as_str()) {
            assert(f.take(b.len() as int)[k as int] != b[k as int]);
            return None;
        }
        k += 1;
    }
    assert(f.take(b.len() as int) =~= b);
    let ghost rest = f.skip(b.len() as int);
    let mut parts: Vec<String> = Vec::new();
    let mut index = base.len();
    assert(rest.take(0) =~= Seq::<(int, Seq<char>)>::empty());
    while index < full.len()
        invariant
            base@.len() <= index <= full@.len(),
            f == full@.map_values(|part: (u8, String)| (part.0 as int, part.1@)),
            rest == f.skip(base@.len() as int),
            b == path_components(root@),
            b.len() == base@.len(),
            f.take(b.len() as int) == b,
            f == path_components(target),
            target == if is_absolute_path(path@) {
                path@
            } else {
                join_path(root@, path@)
            },
            clean_components(rest.take(index - base@.len())) == Some(
                parts@.map_values(|part: String| part@),
            ),
        decreases full@.len() - index,
    {
        let ghost done = index - base@.len();
        assert(rest.take(done + 1).drop_last() =~= rest.take(done));
        assert(rest.take(done + 1).last() == f[index as int]);
        let ghost before = parts@.map_values(|part: String| part@);
        let rank = full[index].0;
        if rank == 1 {
        } else if rank == 2 {
            if parts.len() == 0 {
                proof {
                    lemma_clean_stays_none(rest, done + 1);
                }
                return None;
            }
            parts.pop();
            assert(parts@.map_values(|part: String| part@) =~= before.drop_last());
        } else if rank == 3 {
            parts.push(full[index].1.clone());
            assert(parts@.map_values(|part: String| part@) =~= before.push(f[index as int].1));
        } else {
            proof {
                lemma_clean_stays_none(rest, done + 1);
            }
            return None;
        }
        index += 1;
    }
    assert(rest.take(rest.len() as int) =~= rest);
    Some(join_parts(&parts))
}

proof fn lemma_clean_stays_none(components: Seq<(int, Seq<char>)>, count: int)
    requires
        0 <= count <= components.len(),
        clean_components(components.take(count)) is None,
    ensures
        clean_components(components) is None,
    decreases components.len() - count,
{
    if count < components.len() {
        assert(components.take(count + 1).drop_last() =~= components.take(count));
        lemma_clean_stays_none(components, count + 1);
    } else {
        assert(components.take(count) =~= components);
    }
}

fn is_root_path(path: &str) -> (root: bool)
    requires
        path@.len() > 0,
    ensures
        root == is_absolute_path(path@),
{
    let chars = chars_of(path);
    chars[0] == '/'
}

/// A reference a project makes, as packing sees it: where it resolves, whether it names
/// a file or a directory (and whether that is walked recursively), and whether it was
/// written as an absolute path (an external reference, never packed).
#[derive(Debug, Clone, PartialEq, Eq)]
pub struct PackReference {
    pub path: String,
    pub kind: SourceKind,
    pub recursive: bool,
    pub external: bool,
}

/// `reference` is `written` resolved against `project_file`, as a `kind` reference.
pub open spec fn packs(reference: PackReference, project_file: Seq<char>, written: Seq<char>, kind: SourceKind, recursive: bool) -> bool {
    &&& reference.path@ == resolved_reference(project_file, written)
    &&& reference.kind == kind
    &&& reference.recursive == recursive
    &&& reference.external == is_absolute_path(written)
}

fn pack_reference(project_file: &str, written: &String, kind: SourceKind, recursive: bool) -> (reference: PackReference)
    ensures
        packs(reference, project_file@, written@, kind, recursive),
{
    let external = !written.as_str().is_empty() && is_root_path(written.as_str());
    PackReference {
        path: resolve_project_reference(project_file, written.as_str()),
        kind,
        recursive,
        external,
    }
}

/// Every reference a project makes, in the order packing visits them: its sources, then
/// the init, generated and user scripts (files), the macros directory and the history
/// directory (both walked recursively).
pub fn pack_references(project: &RowlyProject, project_file: &str) -> (references: Vec<PackReference>)
    ensures
        references@.len() == project.sources@.len() + 5,
        forall|i: int|
            0 <= i < project.sources@.len() ==> packs(
                #[trigger] references@[i],
                project_file@,
                project.sources@[i].path@,
                project.sources@[i].kind,
                project.sources@[i].recursive,
            ),
        ({
            let n = project.sources@.len() as int;
            &&& packs(references@[n], project_file@, project.scripts.init@, SourceKind::File, false)
            &&& packs(references@[n + 1], project_file@, project.scripts.generated@, SourceKind::File, false)
            &&& packs(references@[n + 2], project_file@, project.scripts.user@, SourceKind::File, false)
            &&& packs(references@[n + 3], project_file@, project.scripts.macros@, SourceKind::Directory, true)
            &&& packs(references@[n + 4], project_file@, project.history@, SourceKind::Directory, true)
        }),
{
    let mut references: Vec<PackReference> = Vec::new();
    let mut index: usize = 0;
    while index < project.sources.len()
        invariant
            index <= project.sources@.len(),
            references@.len() == index,
            forall|i: int|
                0 <= i < index ==> packs(
                    #[trigger] references@[i],
                    project_file@,
                    project.sources@[i].path@,
                    project.sources@[i].kind,
                    project.sources@[i].recursive,
                ),
        decreases project.sources@.len() - index,
    {
        let source = &project.sources[index];
        references.push(pack_reference(project_file, &source.path, source.kind, source.recursive));
        index += 1;
    }
    references.push(pack_reference(project_file, &project.scripts.init, SourceKind::File, false));
    references.push(pack_reference(project_file, &project.scripts.generated, SourceKind::File, false));
    references.push(pack_reference(project_file, &project.scripts.user, SourceKind::File, false));
    references.push(pack_reference(project_file, &project.scripts.macros, SourceKind::Directory, true));
    references.push(pack_reference(project_file, &project.history, SourceKind::Directory, true));
    references
}

/// The error to report when reading entry number `entries.len()` of an archive fails with
/// `read_error`, `entries` being those read before it: an entry already refused by the
/// checks (an unsafe path, a repeated name, a link) is reported first; otherwise the read
/// failure is.
pub fn read_failure_error(entries: &Vec<ArchiveEntry>, read_error: RowlyxError) -> (error: RowlyxError)
    ensures
        match entries_problem(entries@, entries@.len() as int) {
            Some((EntryProblem::Unsafe, name)) => error matches RowlyxError::UnsafeEntry(n) && n@ == name,
            Some((EntryProblem::Duplicate, name)) => error matches RowlyxError::DuplicateEntry(n) && n@ == name,
            Some((EntryProblem::Link, name)) => error matches RowlyxError::UnsupportedLink(n) && n@ == name,
            None => error == read_error,
        },
{
    match check_entries(entries) {
        Ok(_) => read_error,
        Err(RowlyxError::ProjectDefinitionCount(_)) => read_error,
        Err(refused) => refused,
    }
}

/// Why a reference is left out of an archive.
#[derive(Debug, Clone, Copy, PartialEq, Eq, Structural)]
pub enum SkipReason {
    /// It was written as an absolute path: it stays outside the project.
    External,
    /// It resolves to a place outside the project folder.
    OutsideRoot,
    /// It resolves to the project folder itself.
    ProjectRoot,
    /// Nothing is there.
    Missing,
}

/// What packing does with one reference of a project.
#[derive(Debug, Clone, PartialEq, Eq)]
pub enum PackStep {
    Skip(SkipReason),
    /// Add the file, under this entry name.
    AddFile(String),
    /// Add the directory, under this entry name, with the files in it (and, when
    /// `recursive`, in its subdirectories).
    AddDirectory { relative: String, recursive: bool },
    /// Stop packing with this error.
    Refuse(RowlyxError),
}

/// Why `reference` is left out before anything on disk is looked at: it is external, it
/// leaves the project folder `root`, or it is that folder; `None` when the disk decides.
pub open spec fn skipped_before_disk(reference: PackReference, root: Seq<char>) -> Option<SkipReason> {
    if reference.external {
        Some(SkipReason::External)
    } else {
        match lexical_relative_parts(root, reference.path@) {
            None => Some(SkipReason::OutsideRoot),
            Some(parts) => if joined_parts(parts).len() == 0 {
                Some(SkipReason::ProjectRoot)
            } else {
                None
            },
        }
    }
}

/// The entry name of a reference that is not skipped before the disk is looked at.
pub open spec fn pack_entry_name(reference: PackReference, root: Seq<char>) -> Seq<char> {
    joined_parts(lexical_relative_parts(root, reference.path@).unwrap())
}

/// What packing does with `reference`, given what is on disk at its path: whether
/// something is there, whether it is the archive being written, a symbolic link, a
/// directory or a file.
pub open spec fn pack_decision(
    reference: PackReference,
    root: Seq<char>,
    exists: bool,
    is_archive_target: bool,
    is_symlink: bool,
    is_dir: bool,
    is_file: bool,
    step: PackStep,
) -> bool {
    match skipped_before_disk(reference, root) {
        Some(reason) => step == PackStep::Skip(reason),
        None => if !exists {
            step == PackStep::Skip(SkipReason::Missing)
        } else if is_archive_target {
            step matches PackStep::Refuse(RowlyxError::InvalidReference(m)) && m@
                == "archive output would overwrite project data `"@ + reference.path@ + "`"@
        } else if is_symlink {
            step matches PackStep::Refuse(RowlyxError::UnsupportedLink(p)) && p@ == reference.path@
        } else if is_dir {
            if reference.kind == SourceKind::File {
                step matches PackStep::Refuse(RowlyxError::InvalidReference(m)) && m@
                    == "file reference is a directory: "@ + reference.path@
            } else {
                step matches PackStep::AddDirectory { relative, recursive } && relative@ == pack_entry_name(
                    reference,
                    root,
                ) && recursive == reference.recursive
            }
        } else if is_file {
            if reference.kind == SourceKind::Directory {
                step matches PackStep::Refuse(RowlyxError::InvalidReference(m)) && m@
                    == "directory reference is a file: "@ + reference.path@
            } else {
                step matches PackStep::AddFile(relative) && relative@ == pack_entry_name(reference, root)
            }
        } else {
            step matches PackStep::Refuse(RowlyxError::InvalidReference(p)) && p@ == reference.path@
        },
    }
}

/// The entry name of `reference` when the disk decides what becomes of it; `None` when it
/// is left out before (see `skipped_before_disk`).
pub fn pack_candidate(reference: &PackReference, root: &str) -> (relative: Option<String>)
    ensures
        match relative {
            Some(text) => skipped_before_disk(*reference, root@) is None && text@ == pack_entry_name(
                *reference,
                root@,
            ),
            None => skipped_before_disk(*reference, root@) is Some,
        },
{
    if reference.external {
        return None;
    }
    match lexical_relative(root, reference.path.as_str()) {
        Some(relative) => if relative.as_str().unicode_len() == 0 {
            None
        } else {
            Some(relative)
        },
        None => None,
    }
}

/// What packing does with `reference` under the project folder `root` (see
/// `pack_decision`): references that are external, outside the folder, the folder itself
/// or missing are left out; the archive being written, symbolic links, and a directory or
/// a file where the other was declared are refused.
pub fn pack_step(
    reference: &PackReference,
    root: &str,
    exists: bool,
    is_archive_target: bool,
    is_symlink: bool,
    is_dir: bool,
    is_file: bool,
) -> (step: PackStep)
    ensures
        pack_decision(*reference, root@, exists, is_archive_target, is_symlink, is_dir, is_file, step),
{
    if reference.external {
        return PackStep::Skip(SkipReason::External);
    }
    let relative = match lexical_relative(root, reference.path.as_str()) {
        Some(relative) => relative,
        None => {
            return PackStep::Skip(SkipReason::OutsideRoot);
        },
    };
    if relative.as_str().unicode_len() == 0 {
        return PackStep::Skip(SkipReason::ProjectRoot);
    }
    if !exists {
        return PackStep::Skip(SkipReason::Missing);
    }
    if is_archive_target {
        let mut message = String::from_str("archive output would overwrite project data `");
        message.append(reference.path.as_str());
        message.append("`");
        return PackStep::Refuse(RowlyxError::InvalidReference(message));
    }
    if is_symlink {
        return PackStep::Refuse(RowlyxError::UnsupportedLink(reference.path.clone()));
    }
    if is_dir {
        match reference.kind {
            SourceKind::File => {
                let mut message = String::from_str("file reference is a directory: ");
                message.append(reference.path.as_str());
                PackStep::Refuse(RowlyxError::InvalidReference(message))
            },
            SourceKind::Directory => PackStep::AddDirectory { relative, recursive: reference.recursive },
        }
    } else if is_file {
        match reference.kind {
            SourceKind::Directory => {
                let mut message = String::from_str("directory reference is a file: ");
                message.append(reference.path.as_str());
                PackStep::Refuse(RowlyxError::InvalidReference(message))
            },
            SourceKind::File => PackStep::AddFile(relative),
        }
    } else {
        PackStep::Refuse(RowlyxError::InvalidReference(reference.path.clone()))
    }
}

/// What packing does with one thing found inside a directory that it collects.
#[derive(Debug, Clone, PartialEq, Eq)]
pub enum DirectoryChild {
    /// Leave it out.
    Skip,
    /// Collect this subdirectory too.
    Descend,
    /// Add the file, under this entry name.
    AddFile(String),
    /// Stop packing with this error.
    Refuse(RowlyxError),
}

/// What packing does with `path`, found in a directory it collects under the project folder
/// `root`: a symbolic link is refused; a subdirectory is collected only when the directory
/// is collected recursively; a file is added under its name relative to `root`, and refused
/// when it has none; anything else is left out.
pub open spec fn child_decision(
    root: Seq<char>,
    path: Seq<char>,
    is_symlink: bool,
    is_dir: bool,
    is_file: bool,
    recursive: bool,
    step: DirectoryChild,
) -> bool {
    if is_symlink {
        step matches DirectoryChild::Refuse(RowlyxError::UnsupportedLink(p)) && p@ == path
    } else if is_dir {
        step == (if recursive {
            DirectoryChild::Descend
        } else {
            DirectoryChild::Skip
        })
    } else if is_file {
        match lexical_relative_parts(root, path) {
            Some(parts) => step matches DirectoryChild::AddFile(relative) && relative@ == joined_parts(parts),
            None => step matches DirectoryChild::Refuse(RowlyxError::InvalidReference(p)) && p@ == path,
        }
    } else {
        step == DirectoryChild::Skip
    }
}

/// What packing does with `path`, found in a directory it collects (see `child_decision`).
pub fn directory_child_step(
    root: &str,
    path: &str,
    is_symlink: bool,
    is_dir: bool,
    is_file: bool,
    recursive: bool,
) -> (step: DirectoryChild)
    ensures
        child_decision(root@, path@, is_symlink, is_dir, is_file, recursive, step),
{
    if is_symlink {
        return DirectoryChild::Refuse(RowlyxError::UnsupportedLink(String::from_str(path)));
    }
    if is_dir {
        if recursive {
            DirectoryChild::Descend
        } else {
            DirectoryChild::Skip
        }
    } else if is_file {
        match lexical_relative(root, path) {
            Some(relative) => DirectoryChild::AddFile(relative),
            None => DirectoryChild::Refuse(RowlyxError::InvalidReference(String::from_str(path))),
        }
    } else {
        DirectoryChild::Skip
    }
}

/// Refuses an archive whose output path (resolved) is the project manifest itself.
pub fn check_archive_output(archive_target: &str, manifest: &str) -> (result: Result<(), RowlyxError>)
    ensures
        result is Ok <==> archive_target@ != manifest@,
        result matches Err(error) ==> error matches RowlyxError::InvalidReference(m) && m@
            == "archive output would overwrite the project manifest"@,
{
    if str_equal(archive_target, manifest) {
        Err(RowlyxError::InvalidReference(String::from_str("archive output would overwrite the project manifest")))
    } else {
        Ok(())
    }
}

} // verus!
