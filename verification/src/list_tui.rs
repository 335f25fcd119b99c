//! Browsing the index directory by directory: what a directory shows, and
//! where the keys lead.

use vstd::prelude::*;
use crate::db::Db;
use crate::model::{
    child_of, directory_at, duplicate_in_directory, in_directory, is_duplicate, kept_positions,
    lemma_file_id_unique, lemma_filter_order, stats_under, store_wf, DbView, StoreError,
};
use crate::rows::{
    directory_views, file_views, DirectoryRowView, FileRow, FileRowView,
};
use crate::text::{chars_of, string_of};
use crate::tui::Key;

verus! {

/// How many entries a page key moves the cursor.
pub const PAGE_SIZE: i32 = 20;

/// A line of the browser.
#[derive(Debug)]
pub enum Entry {
    /// A subdirectory, with the duplicates that lie under it.
    Subdir { path: String, dup_count: i64, dup_size: i64 },
    /// A file of the directory, and whether it is a duplicate.
    File { row: FileRow, is_dup: bool },
}

/// What an `Entry` stands for.
pub enum EntryView {
    Subdir { path: Seq<char>, dup_count: i64, dup_size: i64 },
    File { row: FileRowView, is_dup: bool },
}

impl View for Entry {
    type V = EntryView;

    open spec fn view(&self) -> EntryView {
        match self {
            Entry::Subdir { path, dup_count, dup_size } => EntryView::Subdir {
                path: path@,
                dup_count: *dup_count,
                dup_size: *dup_size,
            },
            Entry::File { row, is_dup } => EntryView::File { row: row@, is_dup: *is_dup },
        }
    }
}

/// What a list of entries stands for.
pub open spec fn entry_views(entries: Seq<Entry>) -> Seq<EntryView> {
    entries.map_values(|e: Entry| e@)
}

/// The browser: the directory it began in, the directory it shows, the
/// entries of that directory, and the cursor.
pub struct State {
    root: String,
    current: String,
    entries: Vec<Entry>,
    selected: Option<usize>,
    dup_count: i64,
    dup_size: i64,
}

/// What a `State` stands for.
pub struct StateView {
    pub root: Seq<char>,
    pub current: Seq<char>,
    pub entries: Seq<EntryView>,
    pub selected: Option<usize>,
    pub dup_count: i64,
    pub dup_size: i64,
}

impl View for State {
    type V = StateView;

    closed spec fn view(&self) -> StateView {
        StateView {
            root: self.root@,
            current: self.current@,
            entries: entry_views(self.entries@),
            selected: self.selected,
            dup_count: self.dup_count,
            dup_size: self.dup_size,
        }
    }
}

/// The entries of the subdirectories `kids`, in their order; none where a
/// count or a sum does not fit in 64 bits.
pub open spec fn subdir_entries(files: Seq<FileRowView>, kids: Seq<DirectoryRowView>) -> Option<
    Seq<EntryView>,
>
    decreases kids.len(),
{
    if kids.len() == 0 {
        Some(Seq::empty())
    } else {
        match (
            subdir_entries(files, kids.drop_last()),
            stats_under(files, kids.last().canonical_path),
        ) {
            (Some(rest), Some(stats)) => Some(
                rest.push(
                    EntryView::Subdir {
                        path: kids.last().canonical_path,
                        dup_count: stats.0,
                        dup_size: stats.1,
                    },
                ),
            ),
            _ => None,
        }
    }
}

/// The entry of a file of the index.
pub open spec fn file_entry(files: Seq<FileRowView>) -> spec_fn(FileRowView) -> EntryView {
    |f: FileRowView| EntryView::File { row: f, is_dup: is_duplicate(files, f) }
}

/// The entries of the files of the directory `dir`, in the order of the
/// index; none for a directory that the index does not hold.
pub open spec fn file_entries(v: DbView, dir: Seq<char>) -> Seq<EntryView> {
    match directory_at(v.directories, dir) {
        Some(row) => v.files.filter(in_directory(row.id)).map_values(file_entry(v.files)),
        None => Seq::empty(),
    }
}

/// The browser when it shows the directory `dir`: the duplicates under the
/// directory, its subdirectories, then its files, and the cursor on the
/// first entry if there is one. None where a count or a sum does not fit
/// in 64 bits.
pub open spec fn showing(v: DbView, root: Seq<char>, dir: Seq<char>) -> Option<StateView> {
    match (
        stats_under(v.files, dir),
        subdir_entries(v.files, v.directories.filter(child_of(dir))),
    ) {
        (Some(stats), Some(subdirs)) => {
            let entries = subdirs + file_entries(v, dir);
            Some(
                StateView {
                    root,
                    current: dir,
                    entries,
                    selected: if entries.len() > 0 {
                        Some(0usize)
                    } else {
                        None
                    },
                    dup_count: stats.0,
                    dup_size: stats.1,
                },
            )
        },
        _ => None,
    }
}

/// The cursor after a move by `delta` entries, held within the entries.
pub open spec fn moved_cursor(selected: Option<usize>, delta: int, len: nat) -> Option<usize> {
    if len == 0 {
        selected
    } else {
        let from = match selected {
            Some(at) => at as int,
            None => 0,
        };
        let to = from + delta;
        if to < 0 {
            Some(0usize)
        } else if to > len - 1 {
            Some((len - 1) as usize)
        } else {
            Some(to as usize)
        }
    }
}

/// The position of the last slash of a path, and -1 where it has none.
pub open spec fn last_slash(path: Seq<char>) -> int
    decreases path.len(),
{
    if path.len() == 0 {
        -1
    } else if path.last() == '/' {
        path.len() - 1
    } else {
        last_slash(path.drop_last())
    }
}

/// The directory above a canonical path: what stands before its last slash,
/// and `/` for a path directly under the root. The root has none, nor has a
/// path without a slash.
pub open spec fn parent_of(path: Seq<char>) -> Option<Seq<char>> {
    let at = last_slash(path);
    if at < 0 || path.len() == 1 {
        None
    } else if at == 0 {
        Some(seq!['/'])
    } else {
        Some(path.take(at))
    }
}

/// The directory above a canonical path.
pub fn parent_path(path: &str) -> (parent: Option<String>)
    ensures
        match parent {
            Some(p) => parent_of(path@) == Some(p@),
            None => parent_of(path@) is None,
        },
{
    let chars = chars_of(path);
    let mut end: usize = chars.len();
    proof {
        assert(chars@.take(chars.len() as int) =~= chars@);
    }
    while end > 0 && chars[end - 1] != '/'
        invariant
            end <= chars.len(),
            chars@ == path@,
            last_slash(chars@) == last_slash(chars@.take(end as int)),
        decreases end,
    {
        proof {
            assert(chars@.take(end as int).drop_last() =~= chars@.take(end - 1));
        }
        end -= 1;
    }
    proof {
        assert(chars@.take(chars.len() as int) =~= chars@);
        if end > 0 {
            assert(chars@.take(end as int).last() == '/');
        }
    }
    if end == 0 || chars.len() == 1 {
        return None;
    }
    if end == 1 {
        let mut root: Vec<char> = Vec::new();
        root.push('/');
        return Some(string_of(&root));
    }
    let mut parent: Vec<char> = Vec::new();
    let mut i: usize = 0;
    while i < end - 1
        invariant
            i <= end - 1,
            end <= chars.len(),
            parent@ =~= chars@.take(i as int),
        decreases end - 1 - i,
    {
        parent.push(chars[i]);
        i += 1;
    }
    Some(string_of(&parent))
}

impl State {
    /// The browser as it opens on the directory `root`.
    pub fn new(root: &str, db: &Db) -> (result: Result<State, StoreError>)
        requires
            db.wf(),
        ensures
            match showing(db@, root@, root@) {
                Some(state) => result is Ok && result->Ok_0@ == state,
                None => result == Err::<State, StoreError>(StoreError::Overflow),
            },
    {
        let mut state = State {
            root: root.to_owned(),
            current: root.to_owned(),
            entries: Vec::new(),
            selected: None,
            dup_count: 0,
            dup_size: 0,
        };
        match state.load_dir(db, root) {
            Ok(()) => Ok(state),
            Err(e) => Err(e),
        }
    }

    /// Shows the directory `dir`. Where a count or a sum does not fit in 64
    /// bits, the browser stays as it is.
    pub fn load_dir(&mut self, db: &Db, dir: &str) -> (result: Result<(), StoreError>)
        requires
            db.wf(),
        ensures
            match showing(db@, old(self)@.root, dir@) {
                Some(state) => result is Ok && final(self)@ == state,
                None => result == Err::<(), StoreError>(StoreError::Overflow) && final(self)@
                    == old(self)@,
            },
    {
        let ghost v = db@;
        let ghost files = v.files;
        let mut failed = false;
        let (dup_count, dup_size) = match db.duplicate_stats_under(dir) {
            Ok(stats) => stats,
            Err(_) => {
                failed = true;
                (0, 0)
            },
        };
        let kids = db.child_directories(dir);
        let ghost rows = directory_views(kids@);
        let mut entries: Vec<Entry> = Vec::new();
        let mut overflow = false;
        let mut i: usize = 0;
        while i < kids.len()
            invariant
                i <= kids.len(),
                files == db@.files,
                rows == directory_views(kids@),
                match subdir_entries(files, rows.take(i as int)) {
                    Some(found) => !overflow && entry_views(entries@) =~= found,
                    None => overflow,
                },
            decreases kids.len() - i,
        {
            proof {
                assert(rows.take(i + 1).drop_last() =~= rows.take(i as int));
                assert(rows.take(i + 1).last() == rows[i as int]);
            }
            if !overflow {
                match db.duplicate_stats_under(kids[i].canonical_path.as_str()) {
                    Ok((count, size)) => {
                        let ghost prev = entry_views(entries@);
                        entries.push(
                            Entry::Subdir {
                                path: kids[i].canonical_path.clone(),
                                dup_count: count,
                                dup_size: size,
                            },
                        );
                        proof {
                            assert(entry_views(entries@) =~= prev.push(
                                EntryView::Subdir {
                                    path: rows[i as int].canonical_path,
                                    dup_count: count,
                                    dup_size: size,
                                },
                            ));
                        }
                    },
                    Err(_) => {
                        overflow = true;
                    },
                }
            }
            i += 1;
        }
        proof {
            assert(rows.take(i as int) =~= rows);
        }
        if failed || overflow {
            return Err(StoreError::Overflow);
        }
        let ghost subdirs = entry_views(entries@);
        match db.get_directory(dir) {
            Some(row) => {
                let dups = db.duplicate_files_in_dir(row.id);
                let all = db.files_in_directory(row.id);
                let ghost mine = file_views(all@);
                let ghost shown = mine.map_values(file_entry(files));
                let mut k: usize = 0;
                while k < all.len()
                    invariant
                        k <= all.len(),
                        db.wf(),
                        files == db@.files,
                        mine == file_views(all@),
                        mine == files.filter(in_directory(row.id)),
                        file_views(dups@) == files.filter(duplicate_in_directory(files, row.id)),
                        shown == mine.map_values(file_entry(files)),
                        entry_views(entries@) =~= subdirs + shown.take(k as int),
                    decreases all.len() - k,
                {
                    let is_dup = has_id(&dups, all[k].id);
                    proof {
                        lemma_is_dup(db@, row.id, mine[k as int], k as int);
                        assert(is_dup == is_duplicate(files, mine[k as int]));
                    }
                    let ghost prev = entry_views(entries@);
                    entries.push(Entry::File { row: all[k].clone(), is_dup });
                    proof {
                        assert(entry_views(entries@) =~= prev.push(shown[k as int]));
                    }
                    k += 1;
                }
                proof {
                    assert(shown.take(k as int) =~= shown);
                }
            },
            None => {
                proof {
                    assert(entry_views(entries@) =~= subdirs + Seq::<EntryView>::empty());
                }
            },
        }
        self.current = dir.to_owned();
        self.selected = if entries.len() > 0 {
            Some(0)
        } else {
            None
        };
        self.entries = entries;
        self.dup_count = dup_count;
        self.dup_size = dup_size;
        Ok(())
    }

    /// Shows the subdirectory under the cursor, if the cursor is on one.
    pub fn navigate_into(&mut self, db: &Db) -> (result: Result<(), StoreError>)
        requires
            db.wf(),
        ensures
            match entered(old(self)@) {
                Some(dir) => match showing(db@, old(self)@.root, dir) {
                    Some(state) => result is Ok && final(self)@ == state,
                    None => result == Err::<(), StoreError>(StoreError::Overflow) && final(self)@
                        == old(self)@,
                },
                None => result is Ok && final(self)@ == old(self)@,
            },
    {
        let target = match self.selected {
            Some(at) => if at < self.entries.len() {
                match &self.entries[at] {
                    Entry::Subdir { path, .. } => Some(path.clone()),
                    Entry::File { .. } => None,
                }
            } else {
                None
            },
            None => None,
        };
        match target {
            Some(path) => self.load_dir(db, path.as_str()),
            None => Ok(()),
        }
    }

    /// Shows the directory above the one shown, but never leaves the
    /// directory that the browser began in.
    pub fn navigate_up(&mut self, db: &Db) -> (result: Result<(), StoreError>)
        requires
            db.wf(),
        ensures
            match left(old(self)@) {
                Some(dir) => match showing(db@, old(self)@.root, dir) {
                    Some(state) => result is Ok && final(self)@ == state,
                    None => result == Err::<(), StoreError>(StoreError::Overflow) && final(self)@
                        == old(self)@,
                },
                None => result is Ok && final(self)@ == old(self)@,
            },
    {
        if self.current == self.root {
            return Ok(());
        }
        match parent_path(self.current.as_str()) {
            Some(parent) => self.load_dir(db, parent.as_str()),
            None => Ok(()),
        }
    }

    /// Moves the cursor by `delta` entries, and no further than the first
    /// and the last entry.
    pub fn move_selection(&mut self, delta: i32)
        ensures
            final(self)@ == (StateView {
                selected: moved_cursor(old(self)@.selected, delta as int, old(self)@.entries.len()),
                ..old(self)@
            }),
    {
        let len = self.entries.len();
        if len == 0 {
            return ;
        }
        let from: usize = match self.selected {
            Some(at) => at,
            None => 0,
        };
        let to: i128 = from as i128 + delta as i128;
        if to < 0 {
            self.selected = Some(0);
        } else if to > (len - 1) as i128 {
            self.selected = Some(len - 1);
        } else {
            self.selected = Some(to as usize);
        }
    }

    /// How many entries a page key moves the cursor.
    pub fn page_size(&self) -> (size: i32)
        ensures
            size == PAGE_SIZE,
    {
        PAGE_SIZE
    }

    /// Takes a key: the arrows and the page keys move the cursor, right,
    /// enter and space open the subdirectory under it, left and backspace go
    /// up, and `q` and escape end the browsing, which the result then says.
    pub fn handle_key(&mut self, key: Key, db: &Db) -> (result: Result<bool, StoreError>)
        requires
            db.wf(),
        ensures
            match key_target(old(self)@, key) {
                Some(dir) => match showing(db@, old(self)@.root, dir) {
                    Some(state) => result == Ok::<bool, StoreError>(false) && final(self)@ == state,
                    None => result == Err::<bool, StoreError>(StoreError::Overflow) && final(self)@
                        == old(self)@,
                },
                None => result == Ok::<bool, StoreError>(ends_browsing(key)) && final(self)@
                    == match key_delta(key) {
                    Some(delta) => StateView {
                        selected: moved_cursor(
                            old(self)@.selected,
                            delta,
                            old(self)@.entries.len(),
                        ),
                        ..old(self)@
                    },
                    None => old(self)@,
                },
            },
    {
        let moved = match key {
            Key::Esc => {
                return Ok(true);
            },
            Key::Char(c) => {
                if c == 'q' {
                    return Ok(true);
                }
                if c == ' ' {
                    self.navigate_into(db)
                } else {
                    Ok(())
                }
            },
            Key::Up => {
                self.move_selection(-1);
                Ok(())
            },
            Key::Down => {
                self.move_selection(1);
                Ok(())
            },
            Key::PageUp => {
                self.move_selection(-PAGE_SIZE);
                Ok(())
            },
            Key::PageDown => {
                self.move_selection(PAGE_SIZE);
                Ok(())
            },
            Key::Right | Key::Enter => self.navigate_into(db),
            Key::Left | Key::Backspace => self.navigate_up(db),
            Key::Other => Ok(()),
        };
        match moved {
            Ok(()) => Ok(false),
            Err(e) => Err(e),
        }
    }

    /// The directory that the browser began in.
    pub fn root(&self) -> (root: &String)
        ensures
            root@ == self@.root,
    {
        &self.root
    }

    /// The directory shown.
    pub fn current(&self) -> (current: &String)
        ensures
            current@ == self@.current,
    {
        &self.current
    }

    /// The entries of the directory shown.
    pub fn entries(&self) -> (entries: &Vec<Entry>)
        ensures
            entry_views(entries@) == self@.entries,
    {
        &self.entries
    }

    /// The position of the entry that the cursor is on.
    pub fn selected(&self) -> (selected: Option<usize>)
        ensures
            selected == self@.selected,
    {
        self.selected
    }

    /// How many duplicates lie at or under the directory shown.
    pub fn dup_count(&self) -> (count: i64)
        ensures
            count == self@.dup_count,
    {
        self.dup_count
    }

    /// The sum of the sizes of those duplicates.
    pub fn dup_size(&self) -> (size: i64)
        ensures
            size == self@.dup_size,
    {
        self.dup_size
    }
}

/// The subdirectory that the browser enters from where the cursor is, if
/// the cursor is on a subdirectory.
pub open spec fn entered(s: StateView) -> Option<Seq<char>> {
    match s.selected {
        Some(at) => if at < s.entries.len() {
            match s.entries[at as int] {
                EntryView::Subdir { path, .. } => Some(path),
                EntryView::File { .. } => None,
            }
        } else {
            None
        },
        None => None,
    }
}

/// The directory that the browser goes up to, if it goes up: the one above
/// the directory shown, unless that is the directory that the browser began
/// in.
pub open spec fn left(s: StateView) -> Option<Seq<char>> {
    if s.current == s.root {
        None
    } else {
        parent_of(s.current)
    }
}

/// The directory that a key leads to, if it leads to one.
pub open spec fn key_target(s: StateView, key: Key) -> Option<Seq<char>> {
    match key {
        Key::Right | Key::Enter => entered(s),
        Key::Char(c) => if c == ' ' {
            entered(s)
        } else {
            None
        },
        Key::Left | Key::Backspace => left(s),
        _ => None,
    }
}

/// By how many entries a key moves the cursor, if it moves it.
pub open spec fn key_delta(key: Key) -> Option<int> {
    match key {
        Key::Up => Some(-1int),
        Key::Down => Some(1int),
        Key::PageUp => Some(-(PAGE_SIZE as int)),
        Key::PageDown => Some(PAGE_SIZE as int),
        _ => None,
    }
}

/// The key ends the browsing.
pub open spec fn ends_browsing(key: Key) -> bool {
    key == Key::Esc || key == Key::Char('q')
}

fn has_id(rows: &Vec<FileRow>, id: i64) -> (found: bool)
    ensures
        found == exists|k: int| 0 <= k < rows@.len() && (#[trigger] file_views(rows@)[k]).id == id,
{
    let mut i: usize = 0;
    while i < rows.len()
        invariant
            i <= rows.len(),
            forall|k: int| 0 <= k < i ==> (#[trigger] file_views(rows@)[k]).id != id,
        decreases rows.len() - i,
    {
        if rows[i].id == id {
            assert(file_views(rows@)[i as int].id == id);
            return true;
        }
        i += 1;
    }
    false
}

/// A file of a directory is among the duplicates of the directory by its
/// identifier exactly when it is a duplicate.
proof fn lemma_is_dup(v: DbView, directory_id: i64, row: FileRowView, k: int)
    requires
        store_wf(v),
        0 <= k < v.files.filter(in_directory(directory_id)).len(),
        v.files.filter(in_directory(directory_id))[k] == row,
    ensures
        is_duplicate(v.files, row) <==> exists|j: int|
            0 <= j < v.files.filter(duplicate_in_directory(v.files, directory_id)).len() && (
            #[trigger] v.files.filter(duplicate_in_directory(v.files, directory_id))[j]).id
                == row.id,
{
    let files = v.files;
    let dups = files.filter(duplicate_in_directory(files, directory_id));
    lemma_filter_order(files, in_directory(directory_id));
    lemma_filter_order(files, duplicate_in_directory(files, directory_id));
    let at = kept_positions(files, in_directory(directory_id))[k];
    assert(files[at] == row);
    let pos = kept_positions(files, duplicate_in_directory(files, directory_id));
    if is_duplicate(files, row) {
        assert(duplicate_in_directory(files, directory_id)(files[at]));
        assert(pos.contains(at));
        let j = choose|j: int| 0 <= j < pos.len() && pos[j] == at;
        assert(dups[j].id == row.id);
    }
    if exists|j: int| 0 <= j < dups.len() && (#[trigger] dups[j]).id == row.id {
        let j = choose|j: int| 0 <= j < dups.len() && (#[trigger] dups[j]).id == row.id;
        assert(dups[j] == files[pos[j]]);
        lemma_file_id_unique(files, v.directories, pos[j], at);
        assert(duplicate_in_directory(files, directory_id)(files[pos[j]]));
    }
}

} // verus!
