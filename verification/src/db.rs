//! The index of directories, files and rules.

use vstd::prelude::*;
use crate::model::{
    hashes_consistent,
    candidate_in, child_of, directories_wf, directory_at, directory_ids, directory_position,
    duplicate_in_directory, duplicate_under, file_ids, file_in_tree, file_outside_tree,
    file_position, files_wf, first_with_hash, groups_of, has_directory, has_directory_path,
    has_file_path, in_directory, is_duplicate, is_shared_hash, kept_positions,
    lemma_filter_directories_wf, lemma_filter_empty, lemma_filter_files_wf, lemma_filter_order,
    lemma_filter_step, lemma_first_with_hash, lemma_first_with_hash_is, lemma_max_id_bounds,
    mark_scanned, max_id, name_taken, next_id, not_file_id, not_file_path, outside_tree, rule_ids,
    rule_inserted, rules_wf, set_fast_hash, set_full_hash, shares_fast_hash, stats_under, store_wf,
    total_size, upsert_file_refusal, upserted_file_id, with_directory, with_file, with_full_hash,
    without_tree, DbView, StoreError,
};
use crate::paths::{in_tree, path_at_or_under, path_in_tree, path_is_direct_child};
use crate::rows::{
    clone_files, directory_views, file_views, group_views, own_text, rule_views, same_text,
    str_view, text_view, DirectoryRowView, FileRowView, RuleRowView,
};
pub use crate::rows::{DirectoryRow, DuplicateGroup, FileRow, RuleRow};

verus! {

/// The index: every directory that was scanned, every file found there, and
/// the rules by which duplicates are resolved.
pub struct Db {
    directories: Vec<DirectoryRow>,
    files: Vec<FileRow>,
    rules: Vec<RuleRow>,
}

impl View for Db {
    type V = DbView;

    closed spec fn view(&self) -> DbView {
        DbView {
            directories: directory_views(self.directories@),
            files: file_views(self.files@),
            rules: rule_views(self.rules@),
        }
    }
}

impl Db {
    /// The index meets the conditions of `store_wf`.
    pub open spec fn wf(&self) -> bool {
        store_wf(self@)
    }

    /// An index without rows.
    pub fn new() -> (db: Db)
        ensures
            db.wf(),
            db@.directories.len() == 0,
            db@.files.len() == 0,
            db@.rules.len() == 0,
    {
        Db { directories: Vec::new(), files: Vec::new(), rules: Vec::new() }
    }

    fn find_directory(&self, path: &String) -> (found: Option<usize>)
        ensures
            match found {
                Some(k) => k < self@.directories.len() && self@.directories[k as int].canonical_path
                    == path@,
                None => !has_directory_path(self@.directories, path@),
            },
    {
        let mut i: usize = 0;
        while i < self.directories.len()
            invariant
                i <= self.directories.len(),
                forall|k: int| 0 <= k < i ==> (#[trigger] self@.directories[k]).canonical_path != path@,
            decreases self.directories.len() - i,
        {
            if self.directories[i].canonical_path == *path {
                return Some(i);
            }
            i += 1;
        }
        None
    }

    /// The index that holds the given rows, where they meet the conditions
    /// of an index: no two directories share an identifier or a path; no
    /// two files share an identifier, a path, or a name within one
    /// directory; each file belongs to one of the directories; no two
    /// rules share an identifier; and the rules come by falling priority.
    pub fn from_rows(directories: Vec<DirectoryRow>, files: Vec<FileRow>, rules: Vec<RuleRow>) -> (db:
        Option<Db>)
        ensures
            db is Some <==> store_wf(
                DbView {
                    directories: directory_views(directories@),
                    files: file_views(files@),
                    rules: rule_views(rules@),
                },
            ),
            db matches Some(db) ==> db.wf() && db@ == (DbView {
                directories: directory_views(directories@),
                files: file_views(files@),
                rules: rule_views(rules@),
            }),
    {
        let db = Db { directories, files, rules };
        if db.directories_are_wf() && db.files_are_wf() && db.rules_are_wf() {
            Some(db)
        } else {
            None
        }
    }

    fn directories_are_wf(&self) -> (ok: bool)
        ensures
            ok == directories_wf(self@.directories),
    {
        let ghost dirs = self@.directories;
        let mut j: usize = 0;
        while j < self.directories.len()
            invariant
                j <= self.directories.len(),
                dirs == self@.directories,
                forall|a: int, b: int|
                    0 <= a < b < j ==> (#[trigger] dirs[a]).id != (#[trigger] dirs[b]).id
                        && dirs[a].canonical_path != dirs[b].canonical_path,
            decreases self.directories.len() - j,
        {
            let mut i: usize = 0;
            while i < j
                invariant
                    i <= j < self.directories.len(),
                    dirs == self@.directories,
                    forall|a: int|
                        0 <= a < i ==> (#[trigger] dirs[a]).id != dirs[j as int].id
                            && dirs[a].canonical_path != dirs[j as int].canonical_path,
                decreases j - i,
            {
                if self.directories[i].id == self.directories[j].id
                    || self.directories[i].canonical_path == self.directories[j].canonical_path {
                    assert(!(dirs[i as int].id != dirs[j as int].id && dirs[i as int].canonical_path
                        != dirs[j as int].canonical_path));
                    return false;
                }
                i += 1;
            }
            j += 1;
        }
        true
    }

    fn files_are_wf(&self) -> (ok: bool)
        ensures
            ok == files_wf(self@.files, self@.directories),
    {
        let ghost files = self@.files;
        let ghost dirs = self@.directories;
        let mut j: usize = 0;
        while j < self.files.len()
            invariant
                j <= self.files.len(),
                files == self@.files,
                dirs == self@.directories,
                forall|a: int, b: int|
                    0 <= a < b < j ==> (#[trigger] files[a]).id != (#[trigger] files[b]).id
                        && files[a].canonical_path != files[b].canonical_path && !(
                    files[a].directory_id == files[b].directory_id && files[a].name
                        == files[b].name),
                forall|a: int| 0 <= a < j ==> has_directory(dirs, (#[trigger] files[a]).directory_id),
            decreases self.files.len() - j,
        {
            if !self.knows_directory(self.files[j].directory_id) {
                assert(!has_directory(dirs, files[j as int].directory_id));
                return false;
            }
            let mut i: usize = 0;
            while i < j
                invariant
                    i <= j < self.files.len(),
                    files == self@.files,
                    forall|a: int|
                        0 <= a < i ==> (#[trigger] files[a]).id != files[j as int].id
                            && files[a].canonical_path != files[j as int].canonical_path && !(
                        files[a].directory_id == files[j as int].directory_id && files[a].name
                            == files[j as int].name),
                decreases j - i,
            {
                let a = &self.files[i];
                let b = &self.files[j];
                if a.id == b.id || a.canonical_path == b.canonical_path || (a.directory_id
                    == b.directory_id && a.name == b.name) {
                    assert(!(files[i as int].id != files[j as int].id
                        && files[i as int].canonical_path != files[j as int].canonical_path && !(
                    files[i as int].directory_id == files[j as int].directory_id
                        && files[i as int].name == files[j as int].name)));
                    return false;
                }
                i += 1;
            }
            j += 1;
        }
        true
    }

    fn rules_are_wf(&self) -> (ok: bool)
        ensures
            ok == rules_wf(self@.rules),
    {
        let ghost rules = self@.rules;
        let mut j: usize = 0;
        while j < self.rules.len()
            invariant
                j <= self.rules.len(),
                rules == self@.rules,
                forall|a: int, b: int|
                    0 <= a < b < j ==> (#[trigger] rules[a]).id != (#[trigger] rules[b]).id
                        && rules[a].priority >= rules[b].priority,
            decreases self.rules.len() - j,
        {
            let mut i: usize = 0;
            while i < j
                invariant
                    i <= j < self.rules.len(),
                    rules == self@.rules,
                    forall|a: int|
                        0 <= a < i ==> (#[trigger] rules[a]).id != rules[j as int].id
                            && rules[a].priority >= rules[j as int].priority,
                decreases j - i,
            {
                if self.rules[i].id == self.rules[j].id || self.rules[i].priority
                    < self.rules[j].priority {
                    assert(!(rules[i as int].id != rules[j as int].id && rules[i as int].priority
                        >= rules[j as int].priority));
                    return false;
                }
                i += 1;
            }
            j += 1;
        }
        true
    }

    /// The directory row with the path `canonical_path`, where there is one.
    pub fn get_directory(&self, canonical_path: &str) -> (found: Option<DirectoryRow>)
        requires
            self.wf(),
        ensures
            match found {
                Some(row) => Some(row@) == directory_at(self@.directories, canonical_path@),
                None => directory_at(self@.directories, canonical_path@) is None,
            },
    {
        let path = canonical_path.to_owned();
        match self.find_directory(&path) {
            Some(k) => {
                proof {
                    lemma_directory_position(self@.directories, path@, k as int);
                }
                Some(self.directories[k].clone())
            },
            None => None,
        }
    }

    fn max_directory_id(&self) -> (m: i64)
        ensures
            m == max_id(directory_ids(self@.directories)),
    {
        let ghost ids = directory_ids(self@.directories);
        let mut m: i64 = 0;
        let mut i: usize = 0;
        while i < self.directories.len()
            invariant
                i <= self.directories.len(),
                ids == directory_ids(self@.directories),
                m == max_id(ids.take(i as int)),
            decreases self.directories.len() - i,
        {
            proof {
                assert(ids.take(i + 1).drop_last() =~= ids.take(i as int));
            }
            if self.directories[i].id > m {
                m = self.directories[i].id;
            }
            i += 1;
        }
        proof {
            assert(ids.take(i as int) =~= ids);
        }
        m
    }

    /// Records the directory `canonical_path` and returns its identifier. A
    /// directory that the index holds already keeps its row, scan time
    /// and all; a new one gets the next identifier and no scan time.
    pub fn upsert_directory(&mut self, canonical_path: &str) -> (result: Result<i64, StoreError>)
        requires
            old(self).wf(),
        ensures
            final(self).wf(),
            final(self)@.files == old(self)@.files,
            final(self)@.rules == old(self)@.rules,
            result is Err <==> !has_directory_path(old(self)@.directories, canonical_path@)
                && next_id(directory_ids(old(self)@.directories)) > i64::MAX,
            result is Err ==> result == Err::<i64, StoreError>(StoreError::IdExhausted)
                && final(self)@ == old(self)@,
            result is Ok ==> final(self)@.directories == with_directory(
                old(self)@.directories,
                canonical_path@,
            ) && directory_at(final(self)@.directories, canonical_path@) is Some && result->Ok_0
                == directory_at(final(self)@.directories, canonical_path@)->Some_0.id,
    {
        let path = canonical_path.to_owned();
        match self.find_directory(&path) {
            Some(k) => {
                proof {
                    lemma_directory_position(self@.directories, path@, k as int);
                }
                Ok(self.directories[k].id)
            },
            None => {
                let m = self.max_directory_id();
                if m == i64::MAX {
                    return Err(StoreError::IdExhausted);
                }
                let id = m + 1;
                let ghost before = self@.directories;
                proof {
                    lemma_max_id_bounds(directory_ids(before));
                    assert forall|k: int| 0 <= k < before.len() implies (#[trigger] before[k]).id
                        < id by {
                        assert(directory_ids(before)[k] == before[k].id);
                    }
                }
                self.directories.push(
                    DirectoryRow { id, canonical_path: path, last_scanned: None },
                );
                proof {
                    let after = self@.directories;
                    assert(after =~= with_directory(before, canonical_path@));
                    assert forall|i: int, j: int| 0 <= i < j < after.len() implies (
                    #[trigger] after[i]).id != (#[trigger] after[j]).id && after[i].canonical_path
                        != after[j].canonical_path by {
                        assert(after[i] == before[i]);
                        if j < before.len() {
                            assert(after[j] == before[j]);
                        }
                    }
                    assert forall|i: int| 0 <= i < self@.files.len() implies has_directory(
                        after,
                        (#[trigger] self@.files[i]).directory_id,
                    ) by {
                        let f = self@.files[i];
                        assert(has_directory(before, f.directory_id));
                        let k = choose|k: int|
                            0 <= k < before.len() && (#[trigger] before[k]).id == f.directory_id;
                        assert(after[k] == before[k]);
                    }
                    lemma_directory_position(after, path@, after.len() - 1);
                }
                Ok(id)
            },
        }
    }

    /// Records that the directory `id` was scanned at `timestamp`.
    pub fn set_directory_scanned(&mut self, id: i64, timestamp: i64)
        requires
            old(self).wf(),
        ensures
            final(self).wf(),
            final(self)@.directories == old(self)@.directories.map_values(
                mark_scanned(id, timestamp),
            ),
            final(self)@.files == old(self)@.files,
            final(self)@.rules == old(self)@.rules,
    {
        let ghost before = self@.directories;
        let mut i: usize = 0;
        while i < self.directories.len()
            invariant
                i <= self.directories.len(),
                self.directories.len() == before.len(),
                self@.files == old(self)@.files,
                self@.rules == old(self)@.rules,
                forall|k: int|
                    0 <= k < i ==> #[trigger] self@.directories[k] == mark_scanned(id, timestamp)(
                        before[k],
                    ),
                forall|k: int| i <= k < before.len() ==> #[trigger] self@.directories[k] == before[k],
            decreases self.directories.len() - i,
        {
            let ghost prev = self@.directories;
            if self.directories[i].id == id {
                let mut row = self.directories[i].clone();
                row.last_scanned = Some(timestamp);
                self.directories.set(i, row);
            }
            proof {
                let now = self@.directories;
                assert(prev[i as int] == before[i as int]);
                assert(now[i as int] == mark_scanned(id, timestamp)(before[i as int]));
                assert forall|k: int| 0 <= k < before.len() && k != i implies #[trigger] now[k]
                    == prev[k] by {}
            }
            i += 1;
        }
        proof {
            let after = self@.directories;
            assert(after =~= before.map_values(mark_scanned(id, timestamp)));
            assert forall|i: int, j: int| 0 <= i < j < after.len() implies (
            #[trigger] after[i]).id != (#[trigger] after[j]).id && after[i].canonical_path
                != after[j].canonical_path by {
                assert(before[i].id != before[j].id);
            }
            assert forall|i: int| 0 <= i < self@.files.len() implies has_directory(
                after,
                (#[trigger] self@.files[i]).directory_id,
            ) by {
                let f = self@.files[i];
                assert(has_directory(before, f.directory_id));
                let k = choose|k: int|
                    0 <= k < before.len() && (#[trigger] before[k]).id == f.directory_id;
                assert(after[k].id == before[k].id);
            }
        }
    }

    /// The directories that are direct children of `parent_path`, in the order
    /// of the index.
    pub fn child_directories(&self, parent_path: &str) -> (children: Vec<DirectoryRow>)
        ensures
            directory_views(children@) == self@.directories.filter(child_of(parent_path@)),
    {
        let ghost dirs = self@.directories;
        let ghost pred = child_of(parent_path@);
        let mut children: Vec<DirectoryRow> = Vec::new();
        let mut i: usize = 0;
        proof {
            lemma_filter_empty(dirs.take(0), pred);
        }
        while i < self.directories.len()
            invariant
                i <= self.directories.len(),
                dirs == self@.directories,
                pred == child_of(parent_path@),
                directory_views(children@) =~= dirs.take(i as int).filter(pred),
            decreases self.directories.len() - i,
        {
            proof {
                lemma_filter_step(dirs, pred, i as int);
            }
            if path_is_direct_child(self.directories[i].canonical_path.as_str(), parent_path) {
                children.push(self.directories[i].clone());
            }
            i += 1;
        }
        proof {
            assert(dirs.take(i as int) =~= dirs);
        }
        children
    }

    /// The directories of the index, in its order.
    pub fn directories(&self) -> (rows: Vec<DirectoryRow>)
        ensures
            directory_views(rows@) == self@.directories,
    {
        let mut rows: Vec<DirectoryRow> = Vec::new();
        let mut i: usize = 0;
        while i < self.directories.len()
            invariant
                i <= self.directories.len(),
                rows@.len() == i,
                directory_views(rows@) =~= self@.directories.take(i as int),
            decreases self.directories.len() - i,
        {
            let ghost prev = directory_views(rows@);
            rows.push(self.directories[i].clone());
            proof {
                assert(directory_views(rows@) =~= prev.push(self@.directories[i as int]));
            }
            i += 1;
        }
        proof {
            assert(self@.directories.take(i as int) =~= self@.directories);
        }
        rows
    }

    /// The files of the index, in its order.
    pub fn files(&self) -> (rows: Vec<FileRow>)
        ensures
            file_views(rows@) == self@.files,
    {
        let rows = clone_files(&self.files);
        proof {
            assert(file_views(rows@) =~= self@.files);
        }
        rows
    }

    /// The files that stand directly in the directory `directory_id`, in the
    /// order of the index.
    pub fn files_in_directory(&self, directory_id: i64) -> (rows: Vec<FileRow>)
        ensures
            file_views(rows@) == self@.files.filter(in_directory(directory_id)),
    {
        let ghost files = self@.files;
        let ghost pred = in_directory(directory_id);
        let mut rows: Vec<FileRow> = Vec::new();
        let mut i: usize = 0;
        proof {
            lemma_filter_empty(files.take(0), pred);
        }
        while i < self.files.len()
            invariant
                i <= self.files.len(),
                files == self@.files,
                pred == in_directory(directory_id),
                file_views(rows@) =~= files.take(i as int).filter(pred),
            decreases self.files.len() - i,
        {
            proof {
                lemma_filter_step(files, pred, i as int);
            }
            if self.files[i].directory_id == directory_id {
                let ghost prev = file_views(rows@);
                rows.push(self.files[i].clone());
                proof {
                    assert(file_views(rows@) =~= prev.push(files[i as int]));
                }
            }
            i += 1;
        }
        proof {
            assert(files.take(i as int) =~= files);
        }
        rows
    }

    fn knows_directory(&self, id: i64) -> (known: bool)
        ensures
            known == has_directory(self@.directories, id),
    {
        let mut i: usize = 0;
        while i < self.directories.len()
            invariant
                i <= self.directories.len(),
                forall|k: int| 0 <= k < i ==> (#[trigger] self@.directories[k]).id != id,
            decreases self.directories.len() - i,
        {
            if self.directories[i].id == id {
                assert(self@.directories[i as int].id == id);
                return true;
            }
            i += 1;
        }
        false
    }

    fn find_file(&self, path: &String) -> (found: Option<usize>)
        ensures
            match found {
                Some(k) => k < self@.files.len() && self@.files[k as int].canonical_path == path@,
                None => !has_file_path(self@.files, path@),
            },
    {
        let mut i: usize = 0;
        while i < self.files.len()
            invariant
                i <= self.files.len(),
                forall|k: int| 0 <= k < i ==> (#[trigger] self@.files[k]).canonical_path != path@,
            decreases self.files.len() - i,
        {
            if self.files[i].canonical_path == *path {
                return Some(i);
            }
            i += 1;
        }
        None
    }

    fn name_is_taken(&self, directory_id: i64, name: &String, path: &String) -> (taken: bool)
        ensures
            taken == name_taken(self@.files, directory_id, name@, path@),
    {
        let mut i: usize = 0;
        while i < self.files.len()
            invariant
                i <= self.files.len(),
                forall|k: int|
                    0 <= k < i ==> !((#[trigger] self@.files[k]).directory_id == directory_id
                        && self@.files[k].name == name@ && self@.files[k].canonical_path != path@),
            decreases self.files.len() - i,
        {
            let row = &self.files[i];
            if row.directory_id == directory_id && row.name == *name && row.canonical_path != *path {
                assert(self@.files[i as int].directory_id == directory_id);
                return true;
            }
            i += 1;
        }
        false
    }

    fn max_file_id(&self) -> (m: i64)
        ensures
            m == max_id(file_ids(self@.files)),
    {
        let ghost ids = file_ids(self@.files);
        let mut m: i64 = 0;
        let mut i: usize = 0;
        while i < self.files.len()
            invariant
                i <= self.files.len(),
                ids == file_ids(self@.files),
                m == max_id(ids.take(i as int)),
            decreases self.files.len() - i,
        {
            proof {
                assert(ids.take(i + 1).drop_last() =~= ids.take(i as int));
            }
            if self.files[i].id > m {
                m = self.files[i].id;
            }
            i += 1;
        }
        proof {
            assert(ids.take(i as int) =~= ids);
        }
        m
    }

    /// Records a file under its canonical path and returns its identifier.
    /// Where the index holds a row of that path, the row keeps its identifier
    /// and takes every other field from the arguments; otherwise a row is
    /// added under the next identifier. The index refuses a file of a
    /// directory that it does not hold, and a name that another file of the
    /// directory has.
    /// A file that comes with a fast hash, or without a full hash, leaves
    /// the hashes of the index consistent.
    pub fn upsert_file(
        &mut self,
        directory_id: i64,
        name: &str,
        canonical_path: &str,
        size: i64,
        modified_at: i64,
        fast_hash: Option<&str>,
        full_hash: Option<&str>,
    ) -> (result: Result<i64, StoreError>)
        requires
            old(self).wf(),
        ensures
            final(self).wf(),
            final(self)@.directories == old(self)@.directories,
            final(self)@.rules == old(self)@.rules,
            result == match upsert_file_refusal(old(self)@, directory_id, name@, canonical_path@) {
                Some(e) => Err::<i64, StoreError>(e),
                None => Ok(upserted_file_id(old(self)@.files, canonical_path@) as i64),
            },
            result is Err ==> final(self)@ == old(self)@,
            result is Ok ==> final(self)@.files == with_file(
                old(self)@.files,
                FileRowView {
                    id: 0,
                    directory_id,
                    name: name@,
                    canonical_path: canonical_path@,
                    size,
                    modified_at,
                    fast_hash: str_view(fast_hash),
                    full_hash: str_view(full_hash),
                },
            ),
            hashes_consistent(old(self)@.files) && (full_hash is Some ==> fast_hash is Some)
                ==> hashes_consistent(final(self)@.files),
    {
        let result = self.put_file(
            directory_id,
            name,
            canonical_path,
            size,
            modified_at,
            fast_hash,
            full_hash,
        );
        proof {
            if result is Ok && hashes_consistent(old(self)@.files) && (full_hash is Some
                ==> fast_hash is Some) {
                crate::scanner::lemma_with_file_consistent(
                    old(self)@.files,
                    FileRowView {
                        id: 0,
                        directory_id,
                        name: name@,
                        canonical_path: canonical_path@,
                        size,
                        modified_at,
                        fast_hash: str_view(fast_hash),
                        full_hash: str_view(full_hash),
                    },
                );
            }
        }
        result
    }

    fn put_file(
        &mut self,
        directory_id: i64,
        name: &str,
        canonical_path: &str,
        size: i64,
        modified_at: i64,
        fast_hash: Option<&str>,
        full_hash: Option<&str>,
    ) -> (result: Result<i64, StoreError>)
        requires
            old(self).wf(),
        ensures
            final(self).wf(),
            final(self)@.directories == old(self)@.directories,
            final(self)@.rules == old(self)@.rules,
            result == match upsert_file_refusal(old(self)@, directory_id, name@, canonical_path@) {
                Some(e) => Err::<i64, StoreError>(e),
                None => Ok(upserted_file_id(old(self)@.files, canonical_path@) as i64),
            },
            result is Err ==> final(self)@ == old(self)@,
            result is Ok ==> final(self)@.files == with_file(
                old(self)@.files,
                FileRowView {
                    id: 0,
                    directory_id,
                    name: name@,
                    canonical_path: canonical_path@,
                    size,
                    modified_at,
                    fast_hash: str_view(fast_hash),
                    full_hash: str_view(full_hash),
                },
            ),
    {
        let name = name.to_owned();
        let path = canonical_path.to_owned();
        if !self.knows_directory(directory_id) {
            return Err(StoreError::UnknownDirectory);
        }
        if self.name_is_taken(directory_id, &name, &path) {
            return Err(StoreError::DuplicateName);
        }
        let ghost before = self@.files;
        let ghost dirs = self@.directories;
        match self.find_file(&path) {
            Some(k) => {
                proof {
                    lemma_file_position(before, dirs, path@, k as int);
                }
                let id = self.files[k].id;
                let row = FileRow {
                    id,
                    directory_id,
                    name,
                    canonical_path: path,
                    size,
                    modified_at,
                    fast_hash: own_text(fast_hash),
                    full_hash: own_text(full_hash),
                };
                self.files.set(k, row);
                proof {
                    let after = self@.files;
                    assert(after =~= before.update(k as int, after[k as int]));
                    assert forall|i: int, j: int| 0 <= i < j < after.len() implies (
                    #[trigger] after[i]).id != (#[trigger] after[j]).id && after[i].canonical_path
                        != after[j].canonical_path && !(after[i].directory_id
                        == after[j].directory_id && after[i].name == after[j].name) by {
                        assert(before[i].id != before[j].id);
                        if i != k {
                            assert(after[i] == before[i]);
                        }
                        if j != k {
                            assert(after[j] == before[j]);
                        }
                    }
                    assert forall|i: int| 0 <= i < after.len() implies has_directory(
                        dirs,
                        (#[trigger] after[i]).directory_id,
                    ) by {
                        if i != k {
                            assert(after[i] == before[i]);
                        }
                    }
                }
                Ok(id)
            },
            None => {
                let m = self.max_file_id();
                if m == i64::MAX {
                    return Err(StoreError::IdExhausted);
                }
                let id = m + 1;
                proof {
                    lemma_max_id_bounds(file_ids(before));
                    assert forall|k: int| 0 <= k < before.len() implies (#[trigger] before[k]).id
                        < id by {
                        assert(file_ids(before)[k] == before[k].id);
                    }
                }
                self.files.push(
                    FileRow {
                        id,
                        directory_id,
                        name,
                        canonical_path: path,
                        size,
                        modified_at,
                        fast_hash: own_text(fast_hash),
                        full_hash: own_text(full_hash),
                    },
                );
                proof {
                    let after = self@.files;
                    assert(after =~= before.push(after[after.len() - 1]));
                    assert forall|i: int, j: int| 0 <= i < j < after.len() implies (
                    #[trigger] after[i]).id != (#[trigger] after[j]).id && after[i].canonical_path
                        != after[j].canonical_path && !(after[i].directory_id
                        == after[j].directory_id && after[i].name == after[j].name) by {
                        assert(after[i] == before[i]);
                        if j < before.len() {
                            assert(after[j] == before[j]);
                        }
                    }
                    assert forall|i: int| 0 <= i < after.len() implies has_directory(
                        dirs,
                        (#[trigger] after[i]).directory_id,
                    ) by {
                        if i < before.len() {
                            assert(after[i] == before[i]);
                        }
                    }
                }
                Ok(id)
            },
        }
    }

    /// Gives the file `id` the fast hash `fast_hash` and takes its full hash
    /// away: what was read of the whole file no longer stands.
    pub fn update_fast_hash(&mut self, id: i64, fast_hash: &str)
        requires
            old(self).wf(),
        ensures
            final(self).wf(),
            final(self)@.directories == old(self)@.directories,
            final(self)@.rules == old(self)@.rules,
            final(self)@.files == old(self)@.files.map_values(set_fast_hash(id, fast_hash@)),
            hashes_consistent(old(self)@.files) ==> hashes_consistent(final(self)@.files),
    {
        let ghost before = self@.files;
        let ghost change = set_fast_hash(id, fast_hash@);
        let mut i: usize = 0;
        while i < self.files.len()
            invariant
                i <= self.files.len(),
                self.files.len() == before.len(),
                self@.directories == old(self)@.directories,
                self@.rules == old(self)@.rules,
                change == set_fast_hash(id, fast_hash@),
                forall|k: int| 0 <= k < i ==> #[trigger] self@.files[k] == change(before[k]),
                forall|k: int| i <= k < before.len() ==> #[trigger] self@.files[k] == before[k],
            decreases self.files.len() - i,
        {
            let ghost prev = self@.files;
            if self.files[i].id == id {
                let mut row = self.files[i].clone();
                row.fast_hash = Some(fast_hash.to_owned());
                row.full_hash = None;
                self.files.set(i, row);
            }
            proof {
                let now = self@.files;
                assert(prev[i as int] == before[i as int]);
                assert(now[i as int] == change(before[i as int]));
                assert forall|k: int| 0 <= k < before.len() && k != i implies #[trigger] now[k]
                    == prev[k] by {}
            }
            i += 1;
        }
        proof {
            assert(self@.files =~= before.map_values(change));
            lemma_rewrite_files_wf(before, self@.files, self@.directories);
            if hashes_consistent(before) {
                crate::laws::law_fast_hash_keeps_hashes_consistent(before, id, fast_hash@);
            }
        }
    }

    /// Gives the file `id` the full hash `full_hash`.
    pub fn update_full_hash(&mut self, id: i64, full_hash: &str)
        requires
            old(self).wf(),
        ensures
            final(self).wf(),
            final(self)@.directories == old(self)@.directories,
            final(self)@.rules == old(self)@.rules,
            final(self)@.files == old(self)@.files.map_values(set_full_hash(id, full_hash@)),
            hashes_consistent(old(self)@.files) && (forall|k: int|
                0 <= k < old(self)@.files.len() && (#[trigger] old(self)@.files[k]).id == id
                    ==> old(self)@.files[k].fast_hash is Some) ==> hashes_consistent(
                final(self)@.files,
            ),
    {
        let ghost before = self@.files;
        let ghost change = set_full_hash(id, full_hash@);
        let mut i: usize = 0;
        while i < self.files.len()
            invariant
                i <= self.files.len(),
                self.files.len() == before.len(),
                self@.directories == old(self)@.directories,
                self@.rules == old(self)@.rules,
                change == set_full_hash(id, full_hash@),
                forall|k: int| 0 <= k < i ==> #[trigger] self@.files[k] == change(before[k]),
                forall|k: int| i <= k < before.len() ==> #[trigger] self@.files[k] == before[k],
            decreases self.files.len() - i,
        {
            let ghost prev = self@.files;
            if self.files[i].id == id {
                let mut row = self.files[i].clone();
                row.full_hash = Some(full_hash.to_owned());
                self.files.set(i, row);
            }
            proof {
                let now = self@.files;
                assert(prev[i as int] == before[i as int]);
                assert(now[i as int] == change(before[i as int]));
                assert forall|k: int| 0 <= k < before.len() && k != i implies #[trigger] now[k]
                    == prev[k] by {}
            }
            i += 1;
        }
        proof {
            assert(self@.files =~= before.map_values(change));
            lemma_rewrite_files_wf(before, self@.files, self@.directories);
            if hashes_consistent(before) && (forall|k: int|
                0 <= k < before.len() && (#[trigger] before[k]).id == id
                    ==> before[k].fast_hash is Some) {
                crate::laws::law_full_hash_keeps_hashes_consistent(before, id, full_hash@);
            }
        }
    }

    /// Removes the file `id`.
    pub fn delete_file(&mut self, id: i64)
        requires
            old(self).wf(),
        ensures
            final(self).wf(),
            final(self)@.directories == old(self)@.directories,
            final(self)@.rules == old(self)@.rules,
            final(self)@.files == old(self)@.files.filter(not_file_id(id)),
            hashes_consistent(old(self)@.files) ==> hashes_consistent(final(self)@.files),
    {
        let ghost src = self@.files;
        let ghost pred = not_file_id(id);
        let mut rows: Vec<FileRow> = Vec::new();
        core::mem::swap(&mut rows, &mut self.files);
        let mut kept: Vec<FileRow> = Vec::new();
        proof {
            lemma_filter_empty(src.take(0), pred);
        }
        for row in it: rows
            invariant
                file_views(it.seq()) == src,
                pred == not_file_id(id),
                file_views(kept@) =~= src.take(it.index() as int).filter(pred),
        {
            proof {
                lemma_filter_step(src, pred, it.index() as int);
            }
            if row.id != id {
                let ghost prev = file_views(kept@);
                kept.push(row);
                proof {
                    assert(file_views(kept@) =~= prev.push(src[it.index() as int]));
                }
            }
        }
        self.files = kept;
        proof {
            assert(src.take(src.len() as int) =~= src);
            lemma_filter_files_wf(src, self@.directories, pred);
            if hashes_consistent(src) {
                crate::model::lemma_filter_consistent(src, pred);
            }
        }
    }

    /// Removes the file with the path `canonical_path`.
    pub fn delete_file_by_path(&mut self, canonical_path: &str)
        requires
            old(self).wf(),
        ensures
            final(self).wf(),
            final(self)@.directories == old(self)@.directories,
            final(self)@.rules == old(self)@.rules,
            final(self)@.files == old(self)@.files.filter(not_file_path(canonical_path@)),
            hashes_consistent(old(self)@.files) ==> hashes_consistent(final(self)@.files),
    {
        let path = canonical_path.to_owned();
        let ghost src = self@.files;
        let ghost pred = not_file_path(canonical_path@);
        let mut rows: Vec<FileRow> = Vec::new();
        core::mem::swap(&mut rows, &mut self.files);
        let mut kept: Vec<FileRow> = Vec::new();
        proof {
            lemma_filter_empty(src.take(0), pred);
        }
        for row in it: rows
            invariant
                file_views(it.seq()) == src,
                pred == not_file_path(canonical_path@),
                path@ == canonical_path@,
                file_views(kept@) =~= src.take(it.index() as int).filter(pred),
        {
            proof {
                lemma_filter_step(src, pred, it.index() as int);
            }
            if row.canonical_path != path {
                let ghost prev = file_views(kept@);
                kept.push(row);
                proof {
                    assert(file_views(kept@) =~= prev.push(src[it.index() as int]));
                }
            }
        }
        self.files = kept;
        proof {
            assert(src.take(src.len() as int) =~= src);
            lemma_filter_files_wf(src, self@.directories, pred);
            if hashes_consistent(src) {
                crate::model::lemma_filter_consistent(src, pred);
            }
        }
    }

    /// Removes the directory `canonical_path`, every directory that descends
    /// from it, and the files of all of them.
    pub fn delete_directory_tree(&mut self, canonical_path: &str)
        requires
            old(self).wf(),
        ensures
            final(self).wf(),
            final(self)@ == without_tree(old(self)@, canonical_path@),
            hashes_consistent(old(self)@.files) ==> hashes_consistent(final(self)@.files),
    {
        let ghost dirs = self@.directories;
        let ghost files = self@.files;
        let ghost keep_dir = outside_tree(canonical_path@);
        let ghost keep_file = file_outside_tree(dirs, canonical_path@);
        let mut rows: Vec<DirectoryRow> = Vec::new();
        core::mem::swap(&mut rows, &mut self.directories);
        let mut kept: Vec<DirectoryRow> = Vec::new();
        let mut doomed: Vec<i64> = Vec::new();
        proof {
            lemma_filter_empty(dirs.take(0), keep_dir);
        }
        for row in it: rows
            invariant
                directory_views(it.seq()) == dirs,
                keep_dir == outside_tree(canonical_path@),
                directory_views(kept@) =~= dirs.take(it.index() as int).filter(keep_dir),
                forall|k: int|
                    0 <= k < it.index() && in_tree((#[trigger] dirs[k]).canonical_path, canonical_path@)
                        ==> doomed@.contains(dirs[k].id),
                forall|x: i64|
                    doomed@.contains(x) ==> exists|k: int|
                        0 <= k < it.index() && (#[trigger] dirs[k]).id == x && in_tree(
                            dirs[k].canonical_path,
                            canonical_path@,
                        ),
        {
            proof {
                lemma_filter_step(dirs, keep_dir, it.index() as int);
            }
            if path_in_tree(row.canonical_path.as_str(), canonical_path) {
                let ghost before = doomed@;
                doomed.push(row.id);
                proof {
                    let here = it.index() as int;
                    assert(doomed@[before.len() as int] == dirs[here].id);
                    assert forall|k: int|
                        0 <= k < here + 1 && in_tree(
                            (#[trigger] dirs[k]).canonical_path,
                            canonical_path@,
                        ) implies doomed@.contains(dirs[k].id) by {
                        if k < here {
                            let p = choose|p: int| 0 <= p < before.len() && before[p] == dirs[k].id;
                            assert(doomed@[p] == dirs[k].id);
                        }
                    }
                    assert forall|x: i64| doomed@.contains(x) implies exists|k: int|
                        0 <= k < here + 1 && (#[trigger] dirs[k]).id == x && in_tree(
                            dirs[k].canonical_path,
                            canonical_path@,
                        ) by {
                        let p = choose|p: int| 0 <= p < doomed@.len() && doomed@[p] == x;
                        if p < before.len() {
                            assert(before.contains(x));
                        } else {
                            assert(dirs[here].id == x);
                        }
                    }
                }
            } else {
                let ghost prev = directory_views(kept@);
                kept.push(row);
                proof {
                    assert(directory_views(kept@) =~= prev.push(dirs[it.index() as int]));
                }
            }
        }
        self.directories = kept;
        proof {
            assert(dirs.take(dirs.len() as int) =~= dirs);
        }
        let mut file_rows: Vec<FileRow> = Vec::new();
        core::mem::swap(&mut file_rows, &mut self.files);
        let mut kept_files: Vec<FileRow> = Vec::new();
        proof {
            lemma_filter_empty(files.take(0), keep_file);
        }
        for row in it: file_rows
            invariant
                file_views(it.seq()) == files,
                keep_file == file_outside_tree(dirs, canonical_path@),
                file_views(kept_files@) =~= files.take(it.index() as int).filter(keep_file),
                forall|k: int|
                    0 <= k < dirs.len() && in_tree((#[trigger] dirs[k]).canonical_path, canonical_path@)
                        ==> doomed@.contains(dirs[k].id),
                forall|x: i64|
                    doomed@.contains(x) ==> exists|k: int|
                        0 <= k < dirs.len() && (#[trigger] dirs[k]).id == x && in_tree(
                            dirs[k].canonical_path,
                            canonical_path@,
                        ),
        {
            proof {
                lemma_filter_step(files, keep_file, it.index() as int);
            }
            let gone = holds_id(&doomed, row.directory_id);
            proof {
                let f = files[it.index() as int];
                assert(gone == file_in_tree(dirs, canonical_path@, f));
            }
            if !gone {
                let ghost prev = file_views(kept_files@);
                kept_files.push(row);
                proof {
                    assert(file_views(kept_files@) =~= prev.push(files[it.index() as int]));
                }
            }
        }
        self.files = kept_files;
        proof {
            assert(files.take(files.len() as int) =~= files);
            lemma_without_tree_wf(old(self)@, canonical_path@);
            if hashes_consistent(files) {
                crate::model::lemma_filter_consistent(files, keep_file);
            }
        }
    }

    fn row_shares_fast_hash(&self, at: usize) -> (shared: bool)
        requires
            at < self@.files.len(),
        ensures
            shared == shares_fast_hash(self@.files, self@.files[at as int]),
    {
        let row = &self.files[at];
        let mut i: usize = 0;
        while i < self.files.len()
            invariant
                i <= self.files.len(),
                at < self.files.len(),
                row == &self.files@[at as int],
                forall|k: int|
                    0 <= k < i ==> !((#[trigger] self@.files[k]).id != row@.id && self@.files[k].size
                        == row@.size && self@.files[k].fast_hash == row@.fast_hash),
            decreases self.files.len() - i,
        {
            let other = &self.files[i];
            if other.id != row.id && other.size == row.size && same_text(
                &other.fast_hash,
                &row.fast_hash,
            ) {
                assert(self@.files[i as int].id != row@.id);
                return true;
            }
            i += 1;
        }
        false
    }

    fn row_is_duplicate(&self, at: usize) -> (shared: bool)
        requires
            at < self@.files.len(),
        ensures
            shared == is_duplicate(self@.files, self@.files[at as int]),
    {
        let row = &self.files[at];
        if row.full_hash.is_none() {
            return false;
        }
        let mut i: usize = 0;
        while i < self.files.len()
            invariant
                i <= self.files.len(),
                at < self.files.len(),
                row == &self.files@[at as int],
                row@.full_hash is Some,
                forall|k: int|
                    0 <= k < i ==> !((#[trigger] self@.files[k]).id != row@.id
                        && self@.files[k].full_hash == row@.full_hash),
            decreases self.files.len() - i,
        {
            let other = &self.files[i];
            if other.id != row.id && same_text(&other.full_hash, &row.full_hash) {
                assert(self@.files[i as int].id != row@.id);
                return true;
            }
            i += 1;
        }
        false
    }

    /// The files that stage two of the pipeline has to read: those without a
    /// full hash, with a fast hash and a size above zero, whose size and fast
    /// hash another row shares. In the order of the index.
    pub fn candidates_needing_full_hash(&self) -> (rows: Vec<FileRow>)
        ensures
            file_views(rows@) == self@.files.filter(candidate_in(self@.files)),
    {
        let ghost files = self@.files;
        let ghost pred = candidate_in(files);
        let mut rows: Vec<FileRow> = Vec::new();
        let mut i: usize = 0;
        proof {
            lemma_filter_empty(files.take(0), pred);
        }
        while i < self.files.len()
            invariant
                i <= self.files.len(),
                files == self@.files,
                pred == candidate_in(files),
                file_views(rows@) =~= files.take(i as int).filter(pred),
            decreases self.files.len() - i,
        {
            proof {
                lemma_filter_step(files, pred, i as int);
            }
            let row = &self.files[i];
            if row.full_hash.is_none() && row.fast_hash.is_some() && row.size > 0
                && self.row_shares_fast_hash(i) {
                let ghost prev = file_views(rows@);
                rows.push(row.clone());
                proof {
                    assert(file_views(rows@) =~= prev.push(files[i as int]));
                }
            }
            i += 1;
        }
        proof {
            assert(files.take(i as int) =~= files);
        }
        rows
    }

    /// The files whose full hash is `full_hash`, in the order of the index.
    pub fn files_with_full_hash(&self, full_hash: &str) -> (rows: Vec<FileRow>)
        ensures
            file_views(rows@) == self@.files.filter(with_full_hash(full_hash@)),
    {
        let digest = Some(full_hash.to_owned());
        let ghost files = self@.files;
        let ghost pred = with_full_hash(full_hash@);
        let mut rows: Vec<FileRow> = Vec::new();
        let mut i: usize = 0;
        proof {
            lemma_filter_empty(files.take(0), pred);
        }
        while i < self.files.len()
            invariant
                i <= self.files.len(),
                files == self@.files,
                pred == with_full_hash(full_hash@),
                text_view(digest) == Some(full_hash@),
                file_views(rows@) =~= files.take(i as int).filter(pred),
            decreases self.files.len() - i,
        {
            proof {
                lemma_filter_step(files, pred, i as int);
            }
            if same_text(&self.files[i].full_hash, &digest) {
                let ghost prev = file_views(rows@);
                rows.push(self.files[i].clone());
                proof {
                    assert(file_views(rows@) =~= prev.push(files[i as int]));
                }
            }
            i += 1;
        }
        proof {
            assert(files.take(i as int) =~= files);
        }
        rows
    }

    /// The duplicates that stand directly in the directory `directory_id`: its
    /// files whose full hash another row of the index shares, wherever that
    /// row lies.
    pub fn duplicate_files_in_dir(&self, directory_id: i64) -> (rows: Vec<FileRow>)
        ensures
            file_views(rows@) == self@.files.filter(
                duplicate_in_directory(self@.files, directory_id),
            ),
    {
        let ghost files = self@.files;
        let ghost pred = duplicate_in_directory(files, directory_id);
        let mut rows: Vec<FileRow> = Vec::new();
        let mut i: usize = 0;
        proof {
            lemma_filter_empty(files.take(0), pred);
        }
        while i < self.files.len()
            invariant
                i <= self.files.len(),
                files == self@.files,
                pred == duplicate_in_directory(files, directory_id),
                file_views(rows@) =~= files.take(i as int).filter(pred),
            decreases self.files.len() - i,
        {
            proof {
                lemma_filter_step(files, pred, i as int);
            }
            if self.files[i].directory_id == directory_id && self.row_is_duplicate(i) {
                let ghost prev = file_views(rows@);
                rows.push(self.files[i].clone());
                proof {
                    assert(file_views(rows@) =~= prev.push(files[i as int]));
                }
            }
            i += 1;
        }
        proof {
            assert(files.take(i as int) =~= files);
        }
        rows
    }

    /// How many duplicates lie at or under `path_prefix`, and the sum of their
    /// sizes. A file lies there when its path is the prefix or starts with
    /// the prefix and a `/`; the prefix is taken as it is, whatever
    /// characters it holds. A file counts where another row of the index
    /// shares its full hash, wherever that row lies.
    pub fn duplicate_stats_under(&self, path_prefix: &str) -> (result: Result<(i64, i64), StoreError>)
        ensures
            result == match stats_under(self@.files, path_prefix@) {
                Some(stats) => Ok::<(i64, i64), StoreError>(stats),
                None => Err(StoreError::Overflow),
            },
    {
        let ghost files = self@.files;
        let ghost pred = duplicate_under(files, path_prefix@);
        let mut count: usize = 0;
        let mut sum: i128 = 0;
        let mut i: usize = 0;
        proof {
            lemma_filter_empty(files.take(0), pred);
        }
        while i < self.files.len()
            invariant
                i <= self.files.len(),
                files == self@.files,
                pred == duplicate_under(files, path_prefix@),
                count == files.take(i as int).filter(pred).len(),
                count <= i,
                sum == total_size(files.take(i as int).filter(pred)),
                -(i as int) * 0x8000_0000_0000_0000 <= sum <= (i as int) * 0x8000_0000_0000_0000,
            decreases self.files.len() - i,
        {
            proof {
                lemma_filter_step(files, pred, i as int);
                let sel = files.take(i as int).filter(pred);
                assert(sel.push(files[i as int]).drop_last() =~= sel);
            }
            let row = &self.files[i];
            if path_at_or_under(row.canonical_path.as_str(), path_prefix) && self.row_is_duplicate(i) {
                count += 1;
                sum = sum + row.size as i128;
            }
            i += 1;
        }
        proof {
            assert(files.take(i as int) =~= files);
        }
        if count as u64 > i64::MAX as u64 || sum < i64::MIN as i128 || sum > i64::MAX as i128 {
            Err(StoreError::Overflow)
        } else {
            Ok((count as i64, sum as i64))
        }
    }

    fn row_leads_group(&self, at: usize) -> (leads: bool)
        requires
            at < self@.files.len(),
        ensures
            leads == (self@.files[at as int].full_hash is Some && first_with_hash(
                self@.files,
                self@.files[at as int].full_hash->Some_0,
            ) == at && is_shared_hash(self@.files, self@.files[at as int].full_hash->Some_0)),
    {
        let row = &self.files[at];
        if row.full_hash.is_none() {
            return false;
        }
        let ghost files = self@.files;
        let ghost digest = files[at as int].full_hash->Some_0;
        proof {
            lemma_first_with_hash(files, digest);
        }
        let mut i: usize = 0;
        while i < at
            invariant
                i <= at < self.files.len(),
                files == self@.files,
                row == &self.files@[at as int],
                files[at as int].full_hash == Some(digest),
                forall|k: int| 0 <= k < i ==> (#[trigger] files[k]).full_hash != Some(digest),
            decreases at - i,
        {
            if same_text(&self.files[i].full_hash, &row.full_hash) {
                proof {
                    assert(files[i as int].full_hash == Some(digest));
                    lemma_first_with_hash(files, digest);
                }
                return false;
            }
            i += 1;
        }
        proof {
            lemma_first_with_hash_is(files, digest, at as int);
        }
        let mut j: usize = at + 1;
        while j < self.files.len()
            invariant
                at < j <= self.files.len(),
                files == self@.files,
                row == &self.files@[at as int],
                files[at as int].full_hash == Some(digest),
                first_with_hash(files, digest) == at,
                forall|k: int| at < k < j ==> (#[trigger] files[k]).full_hash != Some(digest),
            decreases self.files.len() - j,
        {
            if same_text(&self.files[j].full_hash, &row.full_hash) {
                assert(files[at as int].full_hash == Some(digest) && files[j as int].full_hash
                    == Some(digest));
                return true;
            }
            j += 1;
        }
        proof {
            if is_shared_hash(files, digest) {
                let (a, b) = choose|a: int, b: int|
                    0 <= a < b < files.len() && (#[trigger] files[a]).full_hash == Some(digest) && (
                    #[trigger] files[b]).full_hash == Some(digest);
                assert(a >= at);
                assert(false);
            }
        }
        false
    }

    /// The duplicate groups: one for each full hash that two files or more
    /// share, with all the files of that hash. The groups come in the order
    /// in which their first files stand in the index.
    pub fn duplicate_groups(&self) -> (groups: Vec<DuplicateGroup>)
        ensures
            groups_of(self@.files, group_views(groups@)),
    {
        let ghost files = self@.files;
        let mut groups: Vec<DuplicateGroup> = Vec::new();
        let mut i: usize = 0;
        proof {
            assert forall|digest: Seq<char>| #[trigger]
                is_shared_hash(files, digest) implies first_with_hash(files, digest) >= 0 by {
                lemma_first_with_hash(files, digest);
            }
        }
        while i < self.files.len()
            invariant
                i <= self.files.len(),
                files == self@.files,
                forall|k: int|
                    0 <= k < groups@.len() ==> is_shared_hash(
                        files,
                        (#[trigger] group_views(groups@)[k]).full_hash,
                    ) && group_views(groups@)[k].files == files.filter(
                        with_full_hash(group_views(groups@)[k].full_hash),
                    ) && first_with_hash(files, group_views(groups@)[k].full_hash) < i,
                forall|digest: Seq<char>| #[trigger]
                    is_shared_hash(files, digest) && first_with_hash(files, digest) < i
                        ==> exists|k: int|
                        0 <= k < groups@.len() && (#[trigger] group_views(groups@)[k]).full_hash
                            == digest,
                forall|a: int, b: int|
                    0 <= a < b < groups@.len() ==> first_with_hash(
                        files,
                        (#[trigger] group_views(groups@)[a]).full_hash,
                    ) < first_with_hash(files, (#[trigger] group_views(groups@)[b]).full_hash),
            decreases self.files.len() - i,
        {
            let ghost before = group_views(groups@);
            let leads = self.row_leads_group(i);
            if leads {
                let full_hash = match &self.files[i].full_hash {
                    Some(h) => h.clone(),
                    None => String::new(),
                };
                let members = self.files_with_full_hash(full_hash.as_str());
                groups.push(DuplicateGroup { full_hash, files: members });
                proof {
                    assert(group_views(groups@) =~= before.push(groups@[groups@.len() - 1]@));
                }
            }
            proof {
                let after = group_views(groups@);
                assert forall|k: int| 0 <= k < before.len() implies #[trigger] after[k]
                    == before[k] by {}
                assert forall|digest: Seq<char>| #[trigger]
                    is_shared_hash(files, digest) && first_with_hash(files, digest) < i
                        + 1 implies exists|k: int|
                    0 <= k < after.len() && (#[trigger] after[k]).full_hash == digest by {
                    if first_with_hash(files, digest) < i {
                        let k = choose|k: int|
                            0 <= k < before.len() && (#[trigger] before[k]).full_hash == digest;
                        assert(after[k].full_hash == digest);
                    } else {
                        lemma_first_with_hash(files, digest);
                        assert(files[i as int].full_hash == Some(digest));
                        assert(leads);
                        assert(after[after.len() - 1].full_hash == digest);
                    }
                }
            }
            i += 1;
        }
        proof {
            let out = group_views(groups@);
            assert forall|digest: Seq<char>| #[trigger]
                is_shared_hash(files, digest) implies exists|k: int|
                0 <= k < out.len() && (#[trigger] out[k]).full_hash == digest by {
                lemma_first_with_hash(files, digest);
                let (a, b) = choose|a: int, b: int|
                    0 <= a < b < files.len() && (#[trigger] files[a]).full_hash == Some(digest) && (
                    #[trigger] files[b]).full_hash == Some(digest);
                assert(first_with_hash(files, digest) <= a);
            }
        }
        groups
    }

    /// The rules, by falling priority; among rules of one priority the
    /// earlier comes first.
    pub fn all_rules(&self) -> (rules: Vec<RuleRow>)
        requires
            self.wf(),
        ensures
            rule_views(rules@) == self@.rules,
            rules_wf(rule_views(rules@)),
    {
        let mut rules: Vec<RuleRow> = Vec::new();
        let mut i: usize = 0;
        while i < self.rules.len()
            invariant
                i <= self.rules.len(),
                rules@.len() == i,
                rule_views(rules@) =~= self@.rules.take(i as int),
            decreases self.rules.len() - i,
        {
            let ghost prev = rule_views(rules@);
            rules.push(self.rules[i].clone());
            proof {
                assert(rule_views(rules@) =~= prev.push(self@.rules[i as int]));
            }
            i += 1;
        }
        proof {
            assert(self@.rules.take(i as int) =~= self@.rules);
        }
        rules
    }

    fn max_rule_id(&self) -> (m: i64)
        ensures
            m == max_id(rule_ids(self@.rules)),
    {
        let ghost ids = rule_ids(self@.rules);
        let mut m: i64 = 0;
        let mut i: usize = 0;
        while i < self.rules.len()
            invariant
                i <= self.rules.len(),
                ids == rule_ids(self@.rules),
                m == max_id(ids.take(i as int)),
            decreases self.rules.len() - i,
        {
            proof {
                assert(ids.take(i + 1).drop_last() =~= ids.take(i as int));
            }
            if self.rules[i].id > m {
                m = self.rules[i].id;
            }
            i += 1;
        }
        proof {
            assert(ids.take(i as int) =~= ids);
        }
        m
    }

    /// Adds a rule, behind every rule of the same or a higher priority.
    pub fn insert_rule(&mut self, pattern: &str, priority: i64) -> (result: Result<(), StoreError>)
        requires
            old(self).wf(),
        ensures
            final(self).wf(),
            final(self)@.directories == old(self)@.directories,
            final(self)@.files == old(self)@.files,
            result is Err <==> next_id(rule_ids(old(self)@.rules)) > i64::MAX,
            result is Err ==> result == Err::<(), StoreError>(StoreError::IdExhausted)
                && final(self)@ == old(self)@,
            result is Ok ==> rule_inserted(old(self)@.rules, final(self)@.rules, pattern@, priority),
    {
        let m = self.max_rule_id();
        if m == i64::MAX {
            return Err(StoreError::IdExhausted);
        }
        let id = m + 1;
        let ghost before = self@.rules;
        proof {
            lemma_max_id_bounds(rule_ids(before));
            assert forall|k: int| 0 <= k < before.len() implies (#[trigger] before[k]).id < id by {
                assert(rule_ids(before)[k] == before[k].id);
            }
        }
        let mut slot: usize = 0;
        while slot < self.rules.len() && self.rules[slot].priority >= priority
            invariant
                slot <= self.rules.len(),
                before == self@.rules,
                forall|k: int| 0 <= k < slot ==> (#[trigger] before[k]).priority >= priority,
            decreases self.rules.len() - slot,
        {
            slot += 1;
        }
        self.rules.insert(slot, RuleRow { id, pattern: pattern.to_owned(), priority });
        proof {
            let after = self@.rules;
            let row = RuleRowView { id, pattern: pattern@, priority };
            assert(after =~= before.insert(slot as int, row));
            assert forall|k: int| slot <= k < before.len() implies (#[trigger] before[k]).priority
                < priority by {
                if k > slot {
                    assert(before[slot as int].priority >= before[k].priority);
                }
            }
            assert forall|i: int, j: int| 0 <= i < j < after.len() implies (#[trigger] after[i]).id
                != (#[trigger] after[j]).id && after[i].priority >= after[j].priority by {
                let a = if i < slot { i } else { i - 1 };
                let b = if j < slot { j } else { j - 1 };
                if i != slot && j != slot {
                    assert(after[i] == before[a]);
                    assert(after[j] == before[b]);
                    assert(before[a].id != before[b].id);
                } else if i == slot {
                    assert(after[j] == before[b]);
                } else {
                    assert(after[i] == before[a]);
                }
            }
        }
        Ok(())
    }
}

/// In a well-formed table the row at `k` is the row found for its path.
pub proof fn lemma_directory_position(dirs: Seq<DirectoryRowView>, path: Seq<char>, k: int)
    requires
        directories_wf(dirs),
        0 <= k < dirs.len(),
        dirs[k].canonical_path == path,
    ensures
        has_directory_path(dirs, path),
        directory_position(dirs, path) == k,
        directory_at(dirs, path) == Some(dirs[k]),
{
    let c = directory_position(dirs, path);
    if c < k {
        assert(dirs[c].canonical_path != dirs[k].canonical_path);
    } else if k < c {
        assert(dirs[k].canonical_path != dirs[c].canonical_path);
    }
}

/// In a well-formed table the row at `k` is the row found for its path.
pub proof fn lemma_file_position(
    files: Seq<FileRowView>,
    dirs: Seq<DirectoryRowView>,
    path: Seq<char>,
    k: int,
)
    requires
        files_wf(files, dirs),
        0 <= k < files.len(),
        files[k].canonical_path == path,
    ensures
        has_file_path(files, path),
        file_position(files, path) == k,
{
    let c = file_position(files, path);
    if c < k {
        assert(files[c].canonical_path != files[k].canonical_path);
    } else if k < c {
        assert(files[k].canonical_path != files[c].canonical_path);
    }
}

/// Rows that keep their identifiers, paths, names and directories stay
/// well-formed.
pub proof fn lemma_rewrite_files_wf(
    before: Seq<FileRowView>,
    after: Seq<FileRowView>,
    dirs: Seq<DirectoryRowView>,
)
    requires
        files_wf(before, dirs),
        after.len() == before.len(),
        forall|k: int|
            0 <= k < before.len() ==> (#[trigger] after[k]).id == before[k].id
                && after[k].canonical_path == before[k].canonical_path && after[k].name
                == before[k].name && after[k].directory_id == before[k].directory_id,
    ensures
        files_wf(after, dirs),
{
    assert forall|i: int, j: int| 0 <= i < j < after.len() implies (#[trigger] after[i]).id != (
    #[trigger] after[j]).id && after[i].canonical_path != after[j].canonical_path && !(
    after[i].directory_id == after[j].directory_id && after[i].name == after[j].name) by {
        assert(before[i].id != before[j].id);
    }
    assert forall|i: int| 0 <= i < after.len() implies has_directory(
        dirs,
        (#[trigger] after[i]).directory_id,
    ) by {
        assert(has_directory(dirs, before[i].directory_id));
    }
}

/// Whether the list holds the identifier.
fn holds_id(ids: &Vec<i64>, id: i64) -> (found: bool)
    ensures
        found == ids@.contains(id),
{
    let mut i: usize = 0;
    while i < ids.len()
        invariant
            i <= ids.len(),
            forall|k: int| 0 <= k < i ==> ids@[k] != id,
        decreases ids.len() - i,
    {
        if ids[i] == id {
            return true;
        }
        i += 1;
    }
    false
}

/// An index without one of its trees is well-formed.
pub proof fn lemma_without_tree_wf(v: DbView, root: Seq<char>)
    requires
        store_wf(v),
    ensures
        store_wf(without_tree(v, root)),
{
    let after = without_tree(v, root);
    lemma_filter_directories_wf(v.directories, outside_tree(root));
    lemma_filter_files_wf(v.files, v.directories, file_outside_tree(v.directories, root));
    lemma_filter_order(v.files, file_outside_tree(v.directories, root));
    lemma_filter_order(v.directories, outside_tree(root));
    let pos = kept_positions(v.files, file_outside_tree(v.directories, root));
    assert forall|i: int| 0 <= i < after.files.len() implies has_directory(
        after.directories,
        (#[trigger] after.files[i]).directory_id,
    ) by {
        let f = v.files[pos[i]];
        assert(after.files[i] == f);
        assert(has_directory(v.directories, f.directory_id));
        let k = choose|k: int|
            0 <= k < v.directories.len() && (#[trigger] v.directories[k]).id == f.directory_id;
        assert(!file_in_tree(v.directories, root, f));
        assert(!in_tree(v.directories[k].canonical_path, root));
        assert(outside_tree(root)(v.directories[k]));
        let dpos = kept_positions(v.directories, outside_tree(root));
        assert(dpos.contains(k));
        let q = choose|q: int| 0 <= q < dpos.len() && dpos[q] == k;
        assert(after.directories[q] == v.directories[k]);
    }
}

/// What a character becomes in a `LIKE` pattern that is to match it as it
/// is: `\`, `%` and `_` get a `\` before them.
pub open spec fn like_escaped_char(c: char) -> Seq<char> {
    if c == '\\' || c == '%' || c == '_' {
        seq!['\\', c]
    } else {
        seq![c]
    }
}

/// A text as a `LIKE` pattern that matches the text and nothing else, with
/// `\` as the escape character.
pub open spec fn like_escaped(text: Seq<char>) -> Seq<char>
    decreases text.len(),
{
    if text.len() == 0 {
        Seq::empty()
    } else {
        like_escaped(text.drop_last()) + like_escaped_char(text.last())
    }
}

/// Escapes a text for a `LIKE` pattern of a SQL store, so that a path that
/// holds `%` or `_` matches no other path.
pub fn escape_like(s: &str) -> (escaped: String)
    ensures
        escaped@ == like_escaped(s@),
{
    let chars = crate::text::chars_of(s);
    let mut escaped = String::new();
    let mut i: usize = 0;
    while i < chars.len()
        invariant
            i <= chars.len(),
            chars@ == s@,
            escaped@ == like_escaped(chars@.take(i as int)),
        decreases chars.len() - i,
    {
        proof {
            assert(chars@.take(i + 1).drop_last() =~= chars@.take(i as int));
        }
        let c = chars[i];
        if c == '\\' || c == '%' || c == '_' {
            escaped.push('\\');
        }
        escaped.push(c);
        proof {
            assert(escaped@ =~= like_escaped(chars@.take(i as int)) + like_escaped_char(c));
        }
        i += 1;
    }
    proof {
        assert(chars@.take(i as int) =~= chars@);
    }
    escaped
}

} // verus!
