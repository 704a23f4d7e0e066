//! Saved compiled architectures and what changed since one: the names a
//! snapshot may have, where it is kept, and the shape of a diff.
use vstd::prelude::*;
use crate::baseline::BaselineEntry;
use crate::model::EdgeOrigin;
use crate::projection::EntryKind;
use crate::order::Identified;
use crate::text::{cat2, cat4, chars_of, decimal, decimal_spec, ends_with, has_suffix, join, join_strings, slice_chars, string_of, views};

pub mod changes;
pub mod counts;
pub mod level;

use crate::cli::{join_path, path_joined};
verus! {

pub const SCHEMA_VERSION: u32 = 1;

/// A saved compiled architecture.
pub struct Snapshot {
    pub schema_version: u32,
    pub name: String,
    /// The Git commit the snapshot was taken at; lets a diff follow files
    /// renamed since then.
    pub commit: Option<String>,
    pub ir: crate::model::ArchitectureIr,
}

/// A saved snapshot as listed for the UI.
#[derive(Debug, Clone, PartialEq, Eq)]
pub struct SnapshotInfo {
    pub name: String,
    pub commit: Option<String>,
}

#[derive(Debug, Clone, PartialEq, Eq, PartialOrd, Ord)]
pub struct FileChange {
    pub path: String,
    pub node: Option<String>,
}

#[derive(Debug, Clone, PartialEq, Eq, PartialOrd, Ord)]
pub struct FileMove {
    pub from: String,
    pub to: String,
    pub node_before: Option<String>,
    pub node_after: Option<String>,
}

/// A file whose owning node changed without the file moving: an edit of the
/// architecture's `maps`.
#[derive(Debug, Clone, PartialEq, Eq, PartialOrd, Ord)]
pub struct Reassignment {
    pub path: String,
    pub node_before: Option<String>,
    pub node_after: Option<String>,
}

#[derive(Debug, Clone, PartialEq, Eq, PartialOrd, Ord)]
pub struct DependencyChange {
    pub from_file: String,
    pub to_file: String,
    pub kind: String,
    pub from_node: String,
    pub to_node: String,
}

/// What changed in the whole architecture, or in one subtree of it.
#[derive(Debug, Clone, PartialEq)]
pub struct Diff {
    pub snapshot: String,
    pub commit: Option<String>,
    pub scope: Option<String>,
    pub files_added: Vec<FileChange>,
    pub files_removed: Vec<FileChange>,
    pub files_moved: Vec<FileMove>,
    pub files_reassigned: Vec<Reassignment>,
    pub dependencies_added: Vec<DependencyChange>,
    pub dependencies_removed: Vec<DependencyChange>,
    /// Observations behind violations: a rule and a file pair, as in a
    /// baseline.
    pub violations_appeared: Vec<BaselineEntry>,
    pub violations_resolved: Vec<BaselineEntry>,
}

impl Diff {
    /// Nothing changed.
    pub fn is_empty(&self) -> (r: bool)
        ensures
            r == (self.files_added@.len() == 0 && self.files_removed@.len() == 0
                && self.files_moved@.len() == 0 && self.files_reassigned@.len() == 0
                && self.dependencies_added@.len() == 0 && self.dependencies_removed@.len() == 0
                && self.violations_appeared@.len() == 0 && self.violations_resolved@.len() == 0),
    {
        self.files_added.len() == 0 && self.files_removed.len() == 0 && self.files_moved.len() == 0
            && self.files_reassigned.len() == 0 && self.dependencies_added.len() == 0
            && self.dependencies_removed.len() == 0 && self.violations_appeared.len() == 0
            && self.violations_resolved.len() == 0
    }
}

/// An entry of the level that the snapshot had and the live graph has not.
#[derive(Debug, Clone, PartialEq)]
pub struct RemovedEntry {
    pub id: String,
    pub title: String,
    pub entry_kind: EntryKind,
    pub file_path: Option<String>,
    pub architecture_id: Option<String>,
    pub outside_focus: bool,
}

#[derive(Debug, Clone, PartialEq)]
pub struct MovedEntry {
    /// The entry's ID in the snapshot and its ID now.
    pub from: String,
    pub to: String,
}

#[derive(Debug, Clone, PartialEq)]
pub struct ResizedEntry {
    pub id: String,
    pub file_count_before: usize,
    pub file_count_after: usize,
}

#[derive(Debug, Clone, PartialEq, Eq, PartialOrd, Ord)]
pub struct EdgeKey {
    pub from: String,
    pub to: String,
    pub kind: String,
    pub origin: EdgeOrigin,
}

#[derive(Debug, Clone, PartialEq)]
pub struct EdgeCount {
    pub key: EdgeKey,
    pub count_before: usize,
    pub count_after: usize,
}

#[derive(Debug, Clone, PartialEq, Eq, PartialOrd, Ord)]
pub struct ViolationKey {
    pub rule_id: String,
    pub from: Option<String>,
    pub to: Option<String>,
    pub edge_kind: Option<String>,
    /// A cycle's members; empty for other rules.
    pub nodes: Vec<String>,
}

/// What changed on one level of the UI, in the live projection's entry IDs.
#[derive(Debug, Clone, PartialEq)]
pub struct LevelDiff {
    pub snapshot: String,
    pub commit: Option<String>,
    pub focus: String,
    /// Whether the snapshot had this node; if not, everything on it is new.
    pub focus_existed: bool,
    pub entries_added: Vec<String>,
    pub entries_removed: Vec<RemovedEntry>,
    pub entries_moved: Vec<MovedEntry>,
    pub entries_resized: Vec<ResizedEntry>,
    pub edges_added: Vec<EdgeKey>,
    pub edges_removed: Vec<EdgeCount>,
    pub edges_changed: Vec<EdgeCount>,
    pub violations_appeared: Vec<ViolationKey>,
    pub violations_resolved: Vec<ViolationKey>,
    /// The subtree's file-level diff.
    pub summary: Diff,
}

pub open spec fn snapshot_name_char(c: char) -> bool {
    ('a' <= c && c <= 'z') || ('A' <= c && c <= 'Z') || ('0' <= c && c <= '9') || c == '-' || c
        == '_' || c == '.'
}

/// Names become file names: letters, digits, `-`, `_` and `.`, at most 64,
/// not starting with a dot, so a name can never leave the snapshot directory.
pub open spec fn valid_name(name: Seq<char>) -> bool {
    &&& name.len() > 0
    &&& name.len() <= 64
    &&& name[0] != '.'
    &&& forall|i: int| 0 <= i < name.len() ==> snapshot_name_char(#[trigger] name[i])
}

/// The message an invalid snapshot name gets.
pub open spec fn invalid_name_text(name: Seq<char>) -> Seq<char> {
    "invalid snapshot name `"@ + name
        + "`; use up to 64 letters, digits, `-`, `_` or `.`, not starting with `.`"@
}

pub fn validate_name(name: &str) -> (r: Result<(), String>)
    ensures
        match r {
            Ok(()) => valid_name(name@),
            Err(m) => !valid_name(name@) && m@ == invalid_name_text(name@),
        },
{
    let c = chars_of(name);
    let mut ok = c.len() > 0 && c.len() <= 64 && c[0] != '.';
    let mut i: usize = 0;
    while i < c.len() && ok
        invariant
            i <= c@.len(),
            c@ == name@,
            ok ==> (c@.len() > 0 && c@.len() <= 64 && c@[0] != '.'),
            ok ==> forall|k: int| 0 <= k < i ==> snapshot_name_char(#[trigger] c@[k]),
            !ok ==> !valid_name(name@),
        decreases c@.len() - i,
    {
        let x = c[i];
        if !(('a' <= x && x <= 'z') || ('A' <= x && x <= 'Z') || ('0' <= x && x <= '9') || x == '-'
            || x == '_' || x == '.') {
            ok = false;
        }
        i = i + 1;
    }
    if ok {
        Ok(())
    } else {
        Err(cat2(
            cat2("invalid snapshot name `", name).as_str(),
            "`; use up to 64 letters, digits, `-`, `_` or `.`, not starting with `.`",
        ))
    }
}

/// The directory snapshots are kept in, below the repository root.
pub open spec fn directory_spec(root: Seq<char>) -> Seq<char> {
    path_joined(path_joined(root, ".archgraph"@), "snapshots"@)
}

/// The directory snapshots are kept in, below the repository root.
pub fn directory(root: &str) -> (r: String)
    ensures
        r@ == directory_spec(root@),
{
    let dot = join_path(root, ".archgraph");
    join_path(dot.as_str(), "snapshots")
}

/// The file of the snapshot `name`, which must be a valid name.
pub fn path(root: &str, name: &str) -> (r: Result<String, String>)
    ensures
        match r {
            Ok(p) => valid_name(name@) && p@ == path_joined(directory_spec(root@), name@ + ".json"@),
            Err(m) => !valid_name(name@) && m@ == invalid_name_text(name@),
        },
{
    validate_name(name)?;
    let dir = directory(root);
    Ok(join_path(dir.as_str(), cat2(name, ".json").as_str()))
}

/// The name a snapshot is taken and compared under unless another is given.
pub const DEFAULT_NAME: &'static str = "before";

/// What loading a snapshot that is not there says: its name, and the names
/// of those that are.
pub open spec fn missing_spec(name: Seq<char>, saved: Seq<Seq<char>>) -> Seq<char> {
    let known = if saved.len() == 0 {
        "there are none; take one with `archgraph snapshot`"@
    } else {
        "saved: "@ + join(saved, ", "@)
    };
    "no snapshot named `"@ + name + "` ("@ + known + ")"@
}

pub fn missing_text(name: &str, saved: &Vec<String>) -> (r: String)
    ensures
        r@ == missing_spec(name@, views(saved@)),
{
    let known = if saved.len() == 0 {
        String::from_str("there are none; take one with `archgraph snapshot`")
    } else {
        cat2("saved: ", join_strings(saved, ", ").as_str())
    };
    let r = cat4("no snapshot named `", name, "` (", cat2(known.as_str(), ")").as_str());
    proof {
        assert(r@ =~= missing_spec(name@, views(saved@)));
    }
    r
}

/// What loading a file that does not parse as a snapshot says.
pub open spec fn unreadable_spec(source: Seq<char>, name: Seq<char>) -> Seq<char> {
    source + " is not a snapshot this version of ArchGraph can read; take it again with `archgraph snapshot --name "@ + name
        + "`"@
}

pub fn unreadable_text(source: &str, name: &str) -> (r: String)
    ensures
        r@ == unreadable_spec(source@, name@),
{
    let r = cat4(source, " is not a snapshot this version of ArchGraph can read; take it again with `archgraph snapshot --name ", name, "`");
    proof {
        assert(r@ =~= unreadable_spec(source@, name@));
    }
    r
}

/// What loading a snapshot of another schema says.
pub open spec fn schema_spec(source: Seq<char>, name: Seq<char>, version: nat) -> Seq<char> {
    source + ": unsupported snapshot schema "@ + decimal_spec(version) + "; take it again with `archgraph snapshot --name "@
        + name + "`"@
}

/// A loaded snapshot is usable only in the schema this version writes.
pub fn check_schema(source: &str, name: &str, schema_version: u32) -> (r: Result<(), String>)
    ensures
        match r {
            Ok(()) => schema_version == SCHEMA_VERSION,
            Err(m) => schema_version != SCHEMA_VERSION && m@ == schema_spec(source@, name@, schema_version as nat),
        },
{
    if schema_version == SCHEMA_VERSION {
        return Ok(());
    }
    let head = cat2(source, ": unsupported snapshot schema ");
    let number = decimal(schema_version as u128);
    let m = cat4(head.as_str(), number.as_str(), "; take it again with `archgraph snapshot --name ", cat2(name, "`").as_str());
    proof {
        assert(m@ =~= schema_spec(source@, name@, schema_version as nat));
    }
    Err(m)
}

/// The snapshot a file of the snapshot directory holds, by its file name:
/// a valid name followed by `.json`.
pub open spec fn listed_name_spec(file: Seq<char>) -> Option<Seq<char>> {
    let stem = file.take(file.len() - ".json"@.len());
    if ends_with(file, ".json"@) && valid_name(stem) {
        Some(stem)
    } else {
        None
    }
}

pub fn listed_name(file: &str) -> (r: Option<String>)
    ensures
        match r {
            Some(n) => listed_name_spec(file@) == Some(n@),
            None => listed_name_spec(file@) is None,
        },
{
    let c = chars_of(file);
    let suffix = chars_of(".json");
    if !has_suffix(c.as_slice(), suffix.as_slice()) {
        return None;
    }
    let stem = string_of(slice_chars(c.as_slice(), 0, c.len() - suffix.len()).as_slice());
    proof {
        assert(stem@ =~= file@.take(file@.len() - ".json"@.len()));
    }
    match validate_name(stem.as_str()) {
        Ok(()) => Some(stem),
        Err(_) => None,
    }
}

impl Identified for SnapshotInfo {
    open spec fn ident(&self) -> Seq<char> {
        self.name@
    }

    fn ident_str(&self) -> (r: &str) {
        self.name.as_str()
    }
}

} // verus!
