//! The rows of the index and what they stand for.

use vstd::prelude::*;

verus! {

/// A scanned directory.
#[derive(Debug)]
pub struct DirectoryRow {
    pub id: i64,
    pub canonical_path: String,
    pub last_scanned: Option<i64>,
}

/// What a `DirectoryRow` stands for.
pub struct DirectoryRowView {
    pub id: i64,
    pub canonical_path: Seq<char>,
    pub last_scanned: Option<i64>,
}

/// A file found in a scanned directory.
#[derive(Debug)]
pub struct FileRow {
    pub id: i64,
    pub directory_id: i64,
    pub name: String,
    pub canonical_path: String,
    pub size: i64,
    pub modified_at: i64,
    pub fast_hash: Option<String>,
    pub full_hash: Option<String>,
}

/// What a `FileRow` stands for.
pub struct FileRowView {
    pub id: i64,
    pub directory_id: i64,
    pub name: Seq<char>,
    pub canonical_path: Seq<char>,
    pub size: i64,
    pub modified_at: i64,
    pub fast_hash: Option<Seq<char>>,
    pub full_hash: Option<Seq<char>>,
}

/// A glob pattern with the priority of the files it matches.
#[derive(Debug)]
pub struct RuleRow {
    pub id: i64,
    pub pattern: String,
    pub priority: i64,
}

/// What a `RuleRow` stands for.
pub struct RuleRowView {
    pub id: i64,
    pub pattern: Seq<char>,
    pub priority: i64,
}

/// The files that share one full hash.
#[derive(Debug)]
pub struct DuplicateGroup {
    pub full_hash: String,
    pub files: Vec<FileRow>,
}

/// What a `DuplicateGroup` stands for.
pub struct DuplicateGroupView {
    pub full_hash: Seq<char>,
    pub files: Seq<FileRowView>,
}

/// What an optional string stands for.
pub open spec fn text_view(s: Option<String>) -> Option<Seq<char>> {
    match s {
        Some(t) => Some(t@),
        None => None,
    }
}

impl View for DirectoryRow {
    type V = DirectoryRowView;

    open spec fn view(&self) -> DirectoryRowView {
        DirectoryRowView {
            id: self.id,
            canonical_path: self.canonical_path@,
            last_scanned: self.last_scanned,
        }
    }
}

impl View for FileRow {
    type V = FileRowView;

    open spec fn view(&self) -> FileRowView {
        FileRowView {
            id: self.id,
            directory_id: self.directory_id,
            name: self.name@,
            canonical_path: self.canonical_path@,
            size: self.size,
            modified_at: self.modified_at,
            fast_hash: text_view(self.fast_hash),
            full_hash: text_view(self.full_hash),
        }
    }
}

impl View for RuleRow {
    type V = RuleRowView;

    open spec fn view(&self) -> RuleRowView {
        RuleRowView { id: self.id, pattern: self.pattern@, priority: self.priority }
    }
}

impl View for DuplicateGroup {
    type V = DuplicateGroupView;

    open spec fn view(&self) -> DuplicateGroupView {
        DuplicateGroupView { full_hash: self.full_hash@, files: file_views(self.files@) }
    }
}

/// What an optional borrowed string stands for.
pub open spec fn str_view(s: Option<&str>) -> Option<Seq<char>> {
    match s {
        Some(t) => Some(t@),
        None => None,
    }
}

/// What a sequence of directory rows stands for.
pub open spec fn directory_views(rows: Seq<DirectoryRow>) -> Seq<DirectoryRowView> {
    rows.map_values(|r: DirectoryRow| r@)
}

/// What a sequence of file rows stands for.
pub open spec fn file_views(rows: Seq<FileRow>) -> Seq<FileRowView> {
    rows.map_values(|r: FileRow| r@)
}

/// What a sequence of rules stands for.
pub open spec fn rule_views(rows: Seq<RuleRow>) -> Seq<RuleRowView> {
    rows.map_values(|r: RuleRow| r@)
}

/// What a sequence of duplicate groups stands for.
pub open spec fn group_views(groups: Seq<DuplicateGroup>) -> Seq<DuplicateGroupView> {
    groups.map_values(|g: DuplicateGroup| g@)
}

/// What a sequence of strings stands for.
pub open spec fn text_views(texts: Seq<String>) -> Seq<Seq<char>> {
    texts.map_values(|t: String| t@)
}

/// A copy of an optional string.
pub fn clone_text(s: &Option<String>) -> (out: Option<String>)
    ensures
        out == *s,
{
    match s {
        Some(t) => Some(t.clone()),
        None => None,
    }
}

/// An owned copy of an optional borrowed string.
pub fn own_text(s: Option<&str>) -> (out: Option<String>)
    ensures
        text_view(out) == str_view(s),
{
    match s {
        Some(t) => Some(t.to_owned()),
        None => None,
    }
}

/// Whether two optional strings hold the same text, or are both absent.
pub fn same_text(a: &Option<String>, b: &Option<String>) -> (same: bool)
    ensures
        same == (text_view(*a) == text_view(*b)),
{
    match a {
        Some(x) => match b {
            Some(y) => *x == *y,
            None => false,
        },
        None => b.is_none(),
    }
}

impl Clone for DirectoryRow {
    fn clone(&self) -> (out: Self)
        ensures
            out == *self,
    {
        DirectoryRow {
            id: self.id,
            canonical_path: self.canonical_path.clone(),
            last_scanned: self.last_scanned,
        }
    }
}

impl Clone for FileRow {
    fn clone(&self) -> (out: Self)
        ensures
            out == *self,
    {
        FileRow {
            id: self.id,
            directory_id: self.directory_id,
            name: self.name.clone(),
            canonical_path: self.canonical_path.clone(),
            size: self.size,
            modified_at: self.modified_at,
            fast_hash: clone_text(&self.fast_hash),
            full_hash: clone_text(&self.full_hash),
        }
    }
}

impl Clone for RuleRow {
    fn clone(&self) -> (out: Self)
        ensures
            out == *self,
    {
        RuleRow { id: self.id, pattern: self.pattern.clone(), priority: self.priority }
    }
}

/// A copy of a list of file rows.
pub fn clone_files(rows: &Vec<FileRow>) -> (out: Vec<FileRow>)
    ensures
        out@ == rows@,
{
    let mut out: Vec<FileRow> = Vec::new();
    let mut i: usize = 0;
    while i < rows.len()
        invariant
            i <= rows.len(),
            out@ == rows@.take(i as int),
        decreases rows.len() - i,
    {
        out.push(rows[i].clone());
        i += 1;
    }
    assert(rows@.take(rows.len() as int) == rows@);
    out
}

impl Clone for DuplicateGroup {
    fn clone(&self) -> (out: Self)
        ensures
            out@ == self@,
    {
        DuplicateGroup { full_hash: self.full_hash.clone(), files: clone_files(&self.files) }
    }
}

} // verus!
