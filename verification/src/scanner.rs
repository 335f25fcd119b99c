//! The steps by which a scan brings the index in line with one directory:
//! what has gone is forgotten, what is new or changed gets a fast hash, and
//! what may be a duplicate gets a full hash.

use vstd::prelude::*;
use std::collections::VecDeque;
use crate::db::Db;
use crate::model::{
    candidate_in, shares_fast_hash, child_of, directory_at, directory_ids, has_directory_path, hashes_consistent, in_directory,
    kept_positions, lemma_file_id_unique, lemma_filter_congruence, lemma_filter_empty,
    lemma_filter_order, lemma_filter_step, lemma_filter_then, mark_scanned, next_id, not_file_id,
    set_full_hash, store_wf, upsert_file_refusal, with_directory, with_file, without_tree, DbView,
    StoreError,
};
use crate::paths::is_direct_child;
use crate::rows::{
    directory_views, file_views, text_view, text_views, DirectoryRowView, FileRow, FileRowView,
};
use crate::scan::{found_views, is_hidden_name, FoundFile, FoundFileView, ScanOptions};
use crate::scan_tui::{
    bumped_by, logged, ScanProgress, ScanProgressView,
};

verus! {

/// What a scan does with a directory that it takes from its queue.
#[derive(Debug, Clone, Copy, PartialEq, Eq, Structural)]
pub enum Visit {
    /// The directory was scanned before and is not read again.
    Skip,
    /// The directory is read; this is its identifier in the index.
    Scan { directory_id: i64 },
}

/// What a scan does with a directory whose row is `row`: it passes over a
/// directory that was scanned before, unless it was told to scan again.
pub open spec fn visit_of(row: DirectoryRowView, rescan: bool) -> Visit {
    if row.last_scanned is Some && !rescan {
        Visit::Skip
    } else {
        Visit::Scan { directory_id: row.id }
    }
}

/// The position of the first path of the queue that the scan has not
/// visited, and the length of the queue where it has visited them all.
pub open spec fn first_new(queue: Seq<Seq<char>>, visited: Seq<Seq<char>>) -> int
    decreases queue.len(),
{
    if queue.len() == 0 || !visited.contains(queue.first()) {
        0
    } else {
        1 + first_new(queue.drop_first(), visited)
    }
}

/// `first_new` is a position of the queue or its length; the path there was
/// not visited, and every path before it was.
pub proof fn lemma_first_new(queue: Seq<Seq<char>>, visited: Seq<Seq<char>>)
    ensures
        0 <= first_new(queue, visited) <= queue.len(),
        first_new(queue, visited) < queue.len() ==> !visited.contains(
            queue[first_new(queue, visited)],
        ),
        forall|k: int|
            0 <= k < first_new(queue, visited) ==> visited.contains(#[trigger] queue[k]),
    decreases queue.len(),
{
    if queue.len() > 0 && visited.contains(queue.first()) {
        let rest = queue.drop_first();
        lemma_first_new(rest, visited);
        let at = first_new(rest, visited);
        assert forall|k: int| 0 <= k < at + 1 implies visited.contains(#[trigger] queue[k]) by {
            if k > 0 {
                assert(rest[k - 1] == queue[k]);
            }
        }
        if at < rest.len() {
            assert(rest[at] == queue[at + 1]);
        }
    }
}

/// Takes the next directory from the front of the queue, so that the
/// directories are visited breadth first, and passes over every directory
/// that the scan has visited already: `visited` holds the directories that
/// the scan was handed before, and the one handed out joins them. So each
/// directory is visited once in a scan at most, by whatever links the scan
/// comes to it again.
pub fn next_directory(queue: &mut VecDeque<String>, visited: &mut Vec<String>) -> (next: Option<
    String,
>)
    ensures
        ({
            let waiting = text_views(old(queue)@);
            let seen = text_views(old(visited)@);
            let at = first_new(waiting, seen);
            match next {
                Some(dir) => at < waiting.len() && dir@ == waiting[at] && !seen.contains(dir@)
                    && text_views(final(queue)@) == waiting.skip(at + 1) && text_views(
                    final(visited)@,
                ) == seen.push(dir@),
                None => at == waiting.len() && final(queue)@.len() == 0 && text_views(
                    final(visited)@,
                ) == seen,
            }
        }),
{
    let ghost waiting = text_views(queue@);
    let ghost seen = text_views(visited@);
    let ghost taken: int = 0;
    proof {
        assert(waiting.skip(0) =~= waiting);
        lemma_first_new(waiting, seen);
    }
    loop
        invariant
            0 <= taken <= waiting.len(),
            waiting == text_views(old(queue)@),
            seen == text_views(old(visited)@),
            seen == text_views(visited@),
            visited@ == old(visited)@,
            text_views(queue@) =~= waiting.skip(taken),
            first_new(waiting, seen) == taken + first_new(waiting.skip(taken), seen),
        decreases queue@.len(),
    {
        let ghost rest = waiting.skip(taken);
        match queue.pop_front() {
            Some(dir) => {
                proof {
                    assert(rest.len() > 0);
                    assert(dir@ == rest[0]);
                    assert(rest[0] == waiting[taken]);
                    assert(rest.drop_first() =~= waiting.skip(taken + 1));
                    assert(text_views(queue@) =~= waiting.skip(taken + 1));
                }
                if !lists_path(visited, &dir) {
                    let ghost before = text_views(visited@);
                    visited.push(dir.clone());
                    proof {
                        assert(text_views(visited@) =~= before.push(dir@));
                    }
                    return Some(dir);
                }
                proof {
                    taken = taken + 1;
                }
            },
            None => {
                proof {
                    assert(rest.len() == 0);
                }
                return None;
            },
        }
    }
}

/// Records the directory in the index and decides whether it is read.
pub fn begin_directory(db: &mut Db, dir: &str, rescan: bool) -> (result: Result<Visit, StoreError>)
    requires
        old(db).wf(),
    ensures
        final(db).wf(),
        final(db)@.files == old(db)@.files,
        final(db)@.rules == old(db)@.rules,
        result is Err <==> !has_directory_path(old(db)@.directories, dir@) && next_id(
            directory_ids(old(db)@.directories),
        ) > i64::MAX,
        hashes_consistent(old(db)@.files) ==> hashes_consistent(final(db)@.files),
        result is Err ==> result == Err::<Visit, StoreError>(StoreError::IdExhausted) && final(db)@
            == old(db)@,
        result is Ok ==> final(db)@.directories == with_directory(old(db)@.directories, dir@)
            && directory_at(final(db)@.directories, dir@) is Some && result->Ok_0 == visit_of(
            directory_at(final(db)@.directories, dir@)->Some_0,
            rescan,
        ),
{
    let id = match db.upsert_directory(dir) {
        Ok(id) => id,
        Err(e) => {
            return Err(e);
        },
    };
    match db.get_directory(dir) {
        Some(row) => {
            if row.last_scanned.is_some() && !rescan {
                Ok(Visit::Skip)
            } else {
                Ok(Visit::Scan { directory_id: row.id })
            }
        },
        None => Ok(Visit::Scan { directory_id: id }),
    }
}

// ----------------------------------------------------------------------------
// Files that have gone
// ----------------------------------------------------------------------------

/// The names of the found files.
pub open spec fn found_names(found: Seq<FoundFileView>) -> Seq<Seq<char>> {
    found.map_values(|f: FoundFileView| f.name)
}

/// The row is of a file that has gone from the directory: it stands in the
/// directory, no found file has its name, and it is not a hidden file that
/// the scan could not have found.
pub open spec fn is_gone(directory_id: i64, names: Seq<Seq<char>>, hidden: bool, f: FileRowView) -> bool {
    f.directory_id == directory_id && (hidden || !is_hidden_name(f.name)) && !names.contains(
        f.name,
    )
}

/// The rows of files that have gone from the directory.
pub open spec fn gone_from(directory_id: i64, names: Seq<Seq<char>>, hidden: bool) -> spec_fn(
    FileRowView,
) -> bool {
    |f: FileRowView| is_gone(directory_id, names, hidden, f)
}

/// The rows that stay when those of files that have gone leave.
pub open spec fn not_gone_from(directory_id: i64, names: Seq<Seq<char>>, hidden: bool) -> spec_fn(
    FileRowView,
) -> bool {
    |f: FileRowView| !is_gone(directory_id, names, hidden, f)
}

/// The rows that stay while the rows of `checked` are gone through.
pub open spec fn kept_so_far(
    checked: Seq<FileRowView>,
    directory_id: i64,
    names: Seq<Seq<char>>,
    hidden: bool,
) -> spec_fn(FileRowView) -> bool {
    |f: FileRowView| !(is_gone(directory_id, names, hidden, f) && checked.contains(f))
}

fn has_name(found: &Vec<FoundFile>, name: &String) -> (hit: bool)
    ensures
        hit == found_names(found_views(found@)).contains(name@),
{
    let ghost names = found_names(found_views(found@));
    let mut i: usize = 0;
    while i < found.len()
        invariant
            i <= found.len(),
            names == found_names(found_views(found@)),
            forall|k: int| 0 <= k < i ==> names[k] != name@,
        decreases found.len() - i,
    {
        if found[i].name == *name {
            assert(names[i as int] == name@);
            return true;
        }
        i += 1;
    }
    false
}

/// Forgets the files of the directory that have gone: the rows of the
/// directory whose names are not among the found files. With `hidden` off,
/// rows of hidden files stay: the scan did not look for them, so that they
/// were not found says nothing. Returns the rows that the directory had
/// before.
pub fn forget_gone_files(
    db: &mut Db,
    progress: &mut ScanProgress,
    directory_id: i64,
    found: &Vec<FoundFile>,
    hidden: bool,
) -> (known: Vec<FileRow>)
    requires
        old(db).wf(),
    ensures
        final(db).wf(),
        file_views(known@) == old(db)@.files.filter(in_directory(directory_id)),
        final(db)@.directories == old(db)@.directories,
        final(db)@.rules == old(db)@.rules,
        final(db)@.files == old(db)@.files.filter(
            not_gone_from(directory_id, found_names(found_views(found@)), hidden),
        ),
        final(progress)@ == (ScanProgressView {
            files_deleted: bumped_by(
                old(progress)@.files_deleted,
                old(db)@.files.filter(
                    gone_from(directory_id, found_names(found_views(found@)), hidden),
                ).len(),
            ),
            ..old(progress)@
        }),
        hashes_consistent(old(db)@.files) ==> hashes_consistent(final(db)@.files),
{
    let ghost names = found_names(found_views(found@));
    let ghost start = db@.files;
    let ghost dirs = db@.directories;
    let known = db.files_in_directory(directory_id);
    let ghost rows = file_views(known@);
    let ghost gone = gone_from(directory_id, names, hidden);
    proof {
        lemma_filter_order(start, in_directory(directory_id));
        lemma_filter_empty(rows.take(0), gone);
        assert(rows.take(0) =~= Seq::<FileRowView>::empty());
        assert forall|k: int| 0 <= k < start.len() implies kept_so_far(
            rows.take(0),
            directory_id,
            names,
            hidden,
        )(#[trigger] start[k]) by {}
        crate::model::lemma_filter_all(start, kept_so_far(rows.take(0), directory_id, names, hidden));
    }
    let mut i: usize = 0;
    while i < known.len()
        invariant
            i <= known.len(),
            db.wf(),
            store_wf(DbView { directories: dirs, files: start, rules: db@.rules }),
            rows == file_views(known@),
            rows == start.filter(in_directory(directory_id)),
            names == found_names(found_views(found@)),
            gone == gone_from(directory_id, names, hidden),
            db@.directories == dirs,
            db@.rules == old(db)@.rules,
            db@.files == start.filter(kept_so_far(rows.take(i as int), directory_id, names, hidden)),
            progress@ == (ScanProgressView {
                files_deleted: bumped_by(
                    old(progress)@.files_deleted,
                    rows.take(i as int).filter(gone).len(),
                ),
                ..old(progress)@
            }),
        decreases known.len() - i,
    {
        let row = &known[i];
        let ghost done = rows.take(i as int);
        let ghost done1 = rows.take(i + 1);
        let ghost before = kept_so_far(done, directory_id, names, hidden);
        let ghost after = kept_so_far(done1, directory_id, names, hidden);
        proof {
            lemma_filter_step(rows, gone, i as int);
            lemma_filter_order(start, in_directory(directory_id));
            assert(done1 =~= done.push(rows[i as int]));
        }
        let ghost at = kept_positions(start, in_directory(directory_id))[i as int];
        assert(start[at] == rows[i as int]);
        if (hidden || !ScanOptions::is_hidden(row.name.as_str())) && !has_name(found, &row.name) {
            assert(is_gone(directory_id, names, hidden, rows[i as int]));
            db.delete_file(row.id);
            progress.inc_deleted();
            proof {
                assert forall|k: int| 0 <= k < start.len() implies after(#[trigger] start[k]) == (
                before(start[k]) && not_file_id(row.id)(start[k])) by {
                    let f = start[k];
                    if f.id == row.id {
                        lemma_file_id_unique(start, dirs, k, at);
                        assert(done1.contains(f)) by {
                            assert(done1[i as int] == f);
                        }
                    } else {
                        if done1.contains(f) {
                            let p = choose|p: int| 0 <= p < done1.len() && done1[p] == f;
                            assert(p < i);
                            assert(done[p] == f);
                        }
                        if done.contains(f) {
                            let p = choose|p: int| 0 <= p < done.len() && done[p] == f;
                            assert(done1[p] == f);
                        }
                    }
                }
                lemma_filter_then(start, before, not_file_id(row.id), after);
            }
        } else {
            proof {
                assert(!is_gone(directory_id, names, hidden, rows[i as int]));
                assert forall|k: int| 0 <= k < start.len() implies after(#[trigger] start[k])
                    == before(start[k]) by {
                    let f = start[k];
                    if done1.contains(f) {
                        let p = choose|p: int| 0 <= p < done1.len() && done1[p] == f;
                        if p < i {
                            assert(done[p] == f);
                        }
                    }
                    if done.contains(f) {
                        let p = choose|p: int| 0 <= p < done.len() && done[p] == f;
                        assert(done1[p] == f);
                    }
                }
                lemma_filter_congruence(start, after, before);
            }
        }
        i += 1;
    }
    proof {
        assert(rows.take(i as int) =~= rows);
        let last = kept_so_far(rows, directory_id, names, hidden);
        let wanted = not_gone_from(directory_id, names, hidden);
        assert forall|k: int| 0 <= k < start.len() implies last(#[trigger] start[k]) == wanted(
            start[k],
        ) by {
            let f = start[k];
            if is_gone(directory_id, names, hidden, f) {
                assert(in_directory(directory_id)(f));
                assert(kept_positions(start, in_directory(directory_id)).contains(k));
                let q = choose|q: int|
                    0 <= q < rows.len() && kept_positions(start, in_directory(directory_id))[q]
                        == k;
                assert(rows[q] == f);
            }
        }
        lemma_filter_congruence(start, last, wanted);
        assert forall|k: int| 0 <= k < start.len() implies gone(#[trigger] start[k]) == (
        in_directory(directory_id)(start[k]) && gone(start[k])) by {}
        lemma_filter_then(start, in_directory(directory_id), gone, gone);
        if hashes_consistent(start) {
            lemma_filter_order(start, wanted);
            let pos = kept_positions(start, wanted);
            assert forall|k: int| 0 <= k < db@.files.len()
                && (#[trigger] db@.files[k]).full_hash is Some implies
                db@.files[k].fast_hash is Some by {
                assert(db@.files[k] == start[pos[k]]);
            }
        }
    }
    known
}

// ----------------------------------------------------------------------------
// Subdirectories that have gone
// ----------------------------------------------------------------------------

/// The row is of a subdirectory that has gone: a direct child of `parent`
/// that is not among the subdirectories found.
pub open spec fn gone_child(parent: Seq<char>, subdirs: Seq<Seq<char>>) -> spec_fn(
    DirectoryRowView,
) -> bool {
    |d: DirectoryRowView| is_direct_child(d.canonical_path, parent) && !subdirs.contains(d.canonical_path)
}

/// The row's path is not among the subdirectories found.
pub open spec fn unlisted(subdirs: Seq<Seq<char>>) -> spec_fn(DirectoryRowView) -> bool {
    |d: DirectoryRowView| !subdirs.contains(d.canonical_path)
}

/// The paths of the rows.
pub open spec fn row_paths(rows: Seq<DirectoryRowView>) -> Seq<Seq<char>> {
    rows.map_values(|d: DirectoryRowView| d.canonical_path)
}

/// The paths of the subdirectories of `parent` that have gone, in the order
/// of the index.
pub open spec fn gone_roots(
    dirs: Seq<DirectoryRowView>,
    parent: Seq<char>,
    subdirs: Seq<Seq<char>>,
) -> Seq<Seq<char>> {
    row_paths(dirs.filter(gone_child(parent, subdirs)))
}

/// The index without the trees of `roots`, taken out one after the other.
pub open spec fn without_trees(v: DbView, roots: Seq<Seq<char>>) -> DbView
    decreases roots.len(),
{
    if roots.len() == 0 {
        v
    } else {
        without_tree(without_trees(v, roots.drop_last()), roots.last())
    }
}

/// The line that the log gets for a directory that has gone.
pub open spec fn removal_line(path: Seq<char>) -> Seq<char> {
    "Removed deleted directory: "@ + path
}

/// The log with one line more for each of the paths.
pub open spec fn logged_removals(lines: Seq<Seq<char>>, paths: Seq<Seq<char>>) -> Seq<Seq<char>>
    decreases paths.len(),
{
    if paths.len() == 0 {
        lines
    } else {
        logged(logged_removals(lines, paths.drop_last()), removal_line(paths.last()))
    }
}

fn lists_path(paths: &Vec<String>, path: &String) -> (hit: bool)
    ensures
        hit == text_views(paths@).contains(path@),
{
    let ghost texts = text_views(paths@);
    let mut i: usize = 0;
    while i < paths.len()
        invariant
            i <= paths.len(),
            texts == text_views(paths@),
            forall|k: int| 0 <= k < i ==> texts[k] != path@,
        decreases paths.len() - i,
    {
        if paths[i] == *path {
            assert(texts[i as int] == path@);
            return true;
        }
        i += 1;
    }
    false
}

/// Forgets the subdirectories of `dir` that have gone: for each directory of
/// the index that is a direct child of `dir` and not among the
/// subdirectories found, its whole tree leaves the index.
pub fn forget_gone_subdirs(
    db: &mut Db,
    progress: &mut ScanProgress,
    dir: &str,
    subdirs: &Vec<String>,
)
    requires
        old(db).wf(),
    ensures
        final(db).wf(),
        final(db)@ == without_trees(
            old(db)@,
            gone_roots(old(db)@.directories, dir@, text_views(subdirs@)),
        ),
        final(progress)@ == (ScanProgressView {
            log_lines: logged_removals(
                old(progress)@.log_lines,
                gone_roots(old(db)@.directories, dir@, text_views(subdirs@)),
            ),
            lines_logged: bumped_by(
                old(progress)@.lines_logged,
                gone_roots(old(db)@.directories, dir@, text_views(subdirs@)).len(),
            ),
            ..old(progress)@
        }),
        hashes_consistent(old(db)@.files) ==> hashes_consistent(final(db)@.files),
{
    let ghost start = db@;
    let ghost listed = text_views(subdirs@);
    let ghost pred = unlisted(listed);
    let children = db.child_directories(dir);
    let ghost kids = directory_views(children@);
    proof {
        lemma_filter_empty(kids.take(0), pred);
        assert(row_paths(kids.take(0).filter(pred)) =~= Seq::<Seq<char>>::empty());
    }
    let mut i: usize = 0;
    while i < children.len()
        invariant
            i <= children.len(),
            db.wf(),
            kids == directory_views(children@),
            listed == text_views(subdirs@),
            pred == unlisted(listed),
            db@ == without_trees(start, row_paths(kids.take(i as int).filter(pred))),
            progress@ == (ScanProgressView {
                log_lines: logged_removals(
                    old(progress)@.log_lines,
                    row_paths(kids.take(i as int).filter(pred)),
                ),
                lines_logged: bumped_by(
                    old(progress)@.lines_logged,
                    row_paths(kids.take(i as int).filter(pred)).len(),
                ),
                ..old(progress)@
            }),
            hashes_consistent(start.files) ==> hashes_consistent(db@.files),
        decreases children.len() - i,
    {
        let child = &children[i];
        let ghost so_far = row_paths(kids.take(i as int).filter(pred));
        proof {
            lemma_filter_step(kids, pred, i as int);
        }
        if !lists_path(subdirs, &child.canonical_path) {
            let ghost before = db@;
            db.delete_directory_tree(child.canonical_path.as_str());
            let mut line = "Removed deleted directory: ".to_owned();
            line.append(child.canonical_path.as_str());
            progress.log(line);
            proof {
                let next = row_paths(kids.take(i + 1).filter(pred));
                assert(next =~= so_far.push(kids[i as int].canonical_path));
                assert(next.drop_last() =~= so_far);
                if hashes_consistent(before.files) {
                    crate::model::lemma_filter_consistent(
                        before.files,
                        crate::model::file_outside_tree(
                            before.directories,
                            kids[i as int].canonical_path,
                        ),
                    );
                }
            }
        }
        i += 1;
    }
    proof {
        assert(kids.take(i as int) =~= kids);
        let dirs = start.directories;
        assert forall|k: int| 0 <= k < dirs.len() implies gone_child(dir@, listed)(
            #[trigger] dirs[k],
        ) == (child_of(dir@)(dirs[k]) && pred(dirs[k])) by {}
        lemma_filter_then(dirs, child_of(dir@), pred, gone_child(dir@, listed));
    }
}

/// Brings the rows of a directory in line with what was found there: first
/// the files that have gone are forgotten, then the subdirectories that have
/// gone. Returns the file rows that the directory had before.
pub fn reconcile_directory(
    db: &mut Db,
    progress: &mut ScanProgress,
    directory_id: i64,
    dir: &str,
    found: &Vec<FoundFile>,
    subdirs: &Vec<String>,
    hidden: bool,
) -> (known: Vec<FileRow>)
    requires
        old(db).wf(),
    ensures
        final(db).wf(),
        file_views(known@) == old(db)@.files.filter(in_directory(directory_id)),
        final(db)@ == reconciled(
            old(db)@,
            directory_id,
            dir@,
            found_names(found_views(found@)),
            text_views(subdirs@),
            hidden,
        ),
        final(progress)@ == (ScanProgressView {
            files_deleted: bumped_by(
                old(progress)@.files_deleted,
                old(db)@.files.filter(
                    gone_from(directory_id, found_names(found_views(found@)), hidden),
                ).len(),
            ),
            log_lines: logged_removals(
                old(progress)@.log_lines,
                gone_roots(old(db)@.directories, dir@, text_views(subdirs@)),
            ),
            lines_logged: bumped_by(
                old(progress)@.lines_logged,
                gone_roots(old(db)@.directories, dir@, text_views(subdirs@)).len(),
            ),
            ..old(progress)@
        }),
        hashes_consistent(old(db)@.files) ==> hashes_consistent(final(db)@.files),
{
    let known = forget_gone_files(db, progress, directory_id, found, hidden);
    forget_gone_subdirs(db, progress, dir, subdirs);
    known
}

/// The index after the rows of a directory were brought in line with what
/// was found there.
pub open spec fn reconciled(
    v: DbView,
    directory_id: i64,
    dir: Seq<char>,
    names: Seq<Seq<char>>,
    subdirs: Seq<Seq<char>>,
    hidden: bool,
) -> DbView {
    without_trees(
        DbView { files: v.files.filter(not_gone_from(directory_id, names, hidden)), ..v },
        gone_roots(v.directories, dir, subdirs),
    )
}

// ----------------------------------------------------------------------------
// Stage one: fast hashes for what is new or has changed
// ----------------------------------------------------------------------------

/// Size and modification time of a file, as the file system reports them.
#[derive(Debug, Clone, Copy, PartialEq, Eq, Structural)]
pub struct FileStat {
    /// Size in bytes.
    pub size: i64,
    /// Modification time in seconds since the epoch.
    pub modified_at: i64,
}

/// A found file with what the file system says of it, if it says anything.
#[derive(Debug)]
pub struct SeenFile {
    pub name: String,
    pub path: String,
    pub stat: Option<FileStat>,
}

/// What a `SeenFile` stands for.
pub struct SeenFileView {
    pub name: Seq<char>,
    pub path: Seq<char>,
    pub stat: Option<FileStat>,
}

impl View for SeenFile {
    type V = SeenFileView;

    open spec fn view(&self) -> SeenFileView {
        SeenFileView { name: self.name@, path: self.path@, stat: self.stat }
    }
}

/// What a list of seen files stands for.
pub open spec fn seen_views(files: Seq<SeenFile>) -> Seq<SeenFileView> {
    files.map_values(|f: SeenFile| f@)
}

/// A file that is new or has changed, and its fast hash once it is known.
#[derive(Debug)]
pub struct PendingFile {
    pub name: String,
    pub path: String,
    pub size: i64,
    pub modified_at: i64,
    /// The fast hash; absent until the file was read, and where it could not be.
    pub fast_hash: Option<String>,
}

/// What a `PendingFile` stands for.
pub struct PendingFileView {
    pub name: Seq<char>,
    pub path: Seq<char>,
    pub size: i64,
    pub modified_at: i64,
    pub fast_hash: Option<Seq<char>>,
}

impl View for PendingFile {
    type V = PendingFileView;

    open spec fn view(&self) -> PendingFileView {
        PendingFileView {
            name: self.name@,
            path: self.path@,
            size: self.size,
            modified_at: self.modified_at,
            fast_hash: text_view(self.fast_hash),
        }
    }
}

/// What a list of pending files stands for.
pub open spec fn pending_views(files: Seq<PendingFile>) -> Seq<PendingFileView> {
    files.map_values(|f: PendingFile| f@)
}

/// A file is unchanged when a row of its directory has its name, its size
/// and its modification time.
pub open spec fn is_unchanged(known: Seq<FileRowView>, name: Seq<char>, stat: FileStat) -> bool {
    exists|k: int|
        0 <= k < known.len() && (#[trigger] known[k]).name == name && known[k].size == stat.size
            && known[k].modified_at == stat.modified_at
}

/// The pending file that a seen file makes, if it makes one: the file system
/// told its size and time, and it is not unchanged.
pub open spec fn as_pending(known: Seq<FileRowView>) -> spec_fn(SeenFileView) -> Option<
    PendingFileView,
> {
    |f: SeenFileView|
        match f.stat {
            Some(stat) => if is_unchanged(known, f.name, stat) {
                None
            } else {
                Some(
                    PendingFileView {
                        name: f.name,
                        path: f.path,
                        size: stat.size,
                        modified_at: stat.modified_at,
                        fast_hash: None,
                    },
                )
            },
            None => None,
        }
}

/// The file system told the size and time of the file.
pub open spec fn has_stat() -> spec_fn(SeenFileView) -> bool {
    |f: SeenFileView| f.stat is Some
}

fn unchanged(known: &Vec<FileRow>, name: &String, stat: FileStat) -> (same: bool)
    ensures
        same == is_unchanged(file_views(known@), name@, stat),
{
    let ghost rows = file_views(known@);
    let mut i: usize = 0;
    while i < known.len()
        invariant
            i <= known.len(),
            rows == file_views(known@),
            forall|k: int|
                0 <= k < i ==> !((#[trigger] rows[k]).name == name@ && rows[k].size == stat.size
                    && rows[k].modified_at == stat.modified_at),
        decreases known.len() - i,
    {
        let row = &known[i];
        if row.name == *name && row.size == stat.size && row.modified_at == stat.modified_at {
            assert(rows[i as int].name == name@);
            return true;
        }
        i += 1;
    }
    false
}

/// The files that need a fast hash: of the files seen, those whose size and
/// time are known and that no row of the directory shows unchanged. A file
/// that is unchanged is not read and not written. Each file whose size and
/// time are known counts as scanned.
pub fn plan_hashing(progress: &mut ScanProgress, known: &Vec<FileRow>, seen: &Vec<SeenFile>) -> (pending:
    Vec<PendingFile>)
    ensures
        pending_views(pending@) == seen_views(seen@).filter_map(as_pending(file_views(known@))),
        final(progress)@ == (ScanProgressView {
            files_scanned: bumped_by(
                old(progress)@.files_scanned,
                seen_views(seen@).filter(has_stat()).len(),
            ),
            ..old(progress)@
        }),
{
    let ghost files = seen_views(seen@);
    let ghost convert = as_pending(file_views(known@));
    let mut pending: Vec<PendingFile> = Vec::new();
    let mut i: usize = 0;
    proof {
        lemma_filter_empty(files.take(0), has_stat());
    }
    while i < seen.len()
        invariant
            i <= seen.len(),
            files == seen_views(seen@),
            convert == as_pending(file_views(known@)),
            pending_views(pending@) =~= files.take(i as int).filter_map(convert),
            progress@ == (ScanProgressView {
                files_scanned: bumped_by(
                    old(progress)@.files_scanned,
                    files.take(i as int).filter(has_stat()).len(),
                ),
                ..old(progress)@
            }),
        decreases seen.len() - i,
    {
        proof {
            crate::scan::lemma_filter_map_step(files, convert, i as int);
            lemma_filter_step(files, has_stat(), i as int);
        }
        let file = &seen[i];
        match file.stat {
            Some(stat) => {
                progress.inc_scanned();
                if !unchanged(known, &file.name, stat) {
                    let ghost prev = pending_views(pending@);
                    pending.push(
                        PendingFile {
                            name: file.name.clone(),
                            path: file.path.clone(),
                            size: stat.size,
                            modified_at: stat.modified_at,
                            fast_hash: None,
                        },
                    );
                    proof {
                        assert(pending_views(pending@) =~= prev.push(convert(files[i as int])->Some_0));
                    }
                }
            },
            None => {},
        }
        i += 1;
    }
    proof {
        assert(files.take(i as int) =~= files);
    }
    pending
}

/// The row that a pending file makes in the directory: its fast hash, and no
/// full hash, since what was read of the whole file before no longer stands.
pub open spec fn pending_row(directory_id: i64, p: PendingFileView) -> FileRowView {
    FileRowView {
        id: 0,
        directory_id,
        name: p.name,
        canonical_path: p.path,
        size: p.size,
        modified_at: p.modified_at,
        fast_hash: p.fast_hash,
        full_hash: None,
    }
}

/// The index after the pending files were recorded one after the other, and
/// the error that stopped the recording, if one did. A file without a fast
/// hash is passed over. After an error nothing more is recorded.
pub open spec fn recorded(v: DbView, directory_id: i64, pending: Seq<PendingFileView>) -> (
    DbView,
    Option<StoreError>,
)
    decreases pending.len(),
{
    if pending.len() == 0 {
        (v, None)
    } else {
        let (before, error) = recorded(v, directory_id, pending.drop_last());
        let p = pending.last();
        if error is Some || p.fast_hash is None {
            (before, error)
        } else {
            match upsert_file_refusal(before, directory_id, p.name, p.path) {
                Some(e) => (before, Some(e)),
                None => (
                    DbView { files: with_file(before.files, pending_row(directory_id, p)), ..before },
                    None,
                ),
            }
        }
    }
}

/// Records the pending files with their fast hashes, in order. A file whose
/// fast hash is absent is passed over, so that the next scan tries it again.
/// The first file that the index refuses stops the recording.
pub fn record_fast_hashes(db: &mut Db, directory_id: i64, pending: &Vec<PendingFile>) -> (result:
    Result<(), StoreError>)
    requires
        old(db).wf(),
    ensures
        final(db).wf(),
        final(db)@ == recorded(old(db)@, directory_id, pending_views(pending@)).0,
        result == match recorded(old(db)@, directory_id, pending_views(pending@)).1 {
            Some(e) => Err::<(), StoreError>(e),
            None => Ok(()),
        },
        hashes_consistent(old(db)@.files) ==> hashes_consistent(final(db)@.files),
{
    let ghost start = db@;
    let ghost files = pending_views(pending@);
    let mut error: Option<StoreError> = None;
    let mut i: usize = 0;
    while i < pending.len()
        invariant
            i <= pending.len(),
            db.wf(),
            files == pending_views(pending@),
            (db@, error) == recorded(start, directory_id, files.take(i as int)),
            hashes_consistent(start.files) ==> hashes_consistent(db@.files),
        decreases pending.len() - i,
    {
        proof {
            assert(files.take(i + 1).drop_last() =~= files.take(i as int));
        }
        let file = &pending[i];
        if error.is_none() {
            match &file.fast_hash {
                Some(digest) => {
                    let ghost before = db@;
                    match db.upsert_file(
                        directory_id,
                        file.name.as_str(),
                        file.path.as_str(),
                        file.size,
                        file.modified_at,
                        Some(digest.as_str()),
                        None,
                    ) {
                        Ok(_) => {
                            proof {
                                assert(db@ == (DbView {
                                    files: with_file(
                                        before.files,
                                        pending_row(directory_id, files[i as int]),
                                    ),
                                    ..before
                                }));
                                if hashes_consistent(before.files) {
                                    lemma_with_file_consistent(
                                        before.files,
                                        pending_row(directory_id, files[i as int]),
                                    );
                                }
                            }
                        },
                        Err(e) => {
                            error = Some(e);
                        },
                    }
                },
                None => {},
            }
        }
        i += 1;
    }
    proof {
        assert(files.take(i as int) =~= files);
    }
    match error {
        Some(e) => Err(e),
        None => Ok(()),
    }
}

/// Recording a row that has no full hash keeps the hashes consistent.
pub proof fn lemma_with_file_consistent(files: Seq<FileRowView>, row: FileRowView)
    requires
        hashes_consistent(files),
        row.full_hash is Some ==> row.fast_hash is Some,
    ensures
        hashes_consistent(with_file(files, row)),
{
    let after = with_file(files, row);
    assert forall|k: int| 0 <= k < after.len() && (#[trigger] after[k]).full_hash is Some implies
        after[k].fast_hash is Some by {
        if crate::model::has_file_path(files, row.canonical_path) {
            let at = crate::model::file_position(files, row.canonical_path);
            if k != at {
                assert(after[k] == files[k]);
            }
        } else {
            if k < files.len() {
                assert(after[k] == files[k]);
            }
        }
    }
}

// ----------------------------------------------------------------------------
// Stage two: full hashes for what may be a duplicate
// ----------------------------------------------------------------------------

/// The full hash that was read for a file of the index, if it could be read.
#[derive(Debug)]
pub struct FullDigest {
    /// The identifier of the file.
    pub id: i64,
    /// The full hash; absent where the file could not be read.
    pub digest: Option<String>,
}

/// What a `FullDigest` stands for.
pub struct FullDigestView {
    pub id: i64,
    pub digest: Option<Seq<char>>,
}

impl View for FullDigest {
    type V = FullDigestView;

    open spec fn view(&self) -> FullDigestView {
        FullDigestView { id: self.id, digest: text_view(self.digest) }
    }
}

/// What a list of full digests stands for.
pub open spec fn digest_views(digests: Seq<FullDigest>) -> Seq<FullDigestView> {
    digests.map_values(|d: FullDigest| d@)
}

/// A full hash was read.
pub open spec fn was_read() -> spec_fn(FullDigestView) -> bool {
    |d: FullDigestView| d.digest is Some
}

/// The files after the full hashes were recorded one after the other. A file
/// whose full hash is absent keeps what it had.
pub open spec fn with_full_hashes(files: Seq<FileRowView>, digests: Seq<FullDigestView>) -> Seq<
    FileRowView,
>
    decreases digests.len(),
{
    if digests.len() == 0 {
        files
    } else {
        let before = with_full_hashes(files, digests.drop_last());
        match digests.last().digest {
            Some(digest) => before.map_values(set_full_hash(digests.last().id, digest)),
            None => before,
        }
    }
}

/// Each full hash that was read is for a file that has a fast hash, as far
/// as the index holds the file.
pub open spec fn digests_follow_fast_hashes(files: Seq<FileRowView>, digests: Seq<FullDigestView>) -> bool {
    forall|k: int, j: int|
        0 <= k < files.len() && 0 <= j < digests.len() && (#[trigger] digests[j]).digest is Some && (
        #[trigger] files[k]).id == digests[j].id ==> files[k].fast_hash is Some
}

/// Records the full hashes that were read. A file that could not be read
/// keeps its row as it was, so that the next scan tries it again. Each file
/// that was read counts as hashed.
fn record_full_hashes(db: &mut Db, progress: &mut ScanProgress, digests: &Vec<FullDigest>)
    requires
        old(db).wf(),
    ensures
        final(db).wf(),
        final(db)@.directories == old(db)@.directories,
        final(db)@.rules == old(db)@.rules,
        final(db)@.files == with_full_hashes(old(db)@.files, digest_views(digests@)),
        final(progress)@ == (ScanProgressView {
            files_hashed: bumped_by(
                old(progress)@.files_hashed,
                digest_views(digests@).filter(was_read()).len(),
            ),
            ..old(progress)@
        }),
        hashes_consistent(old(db)@.files) && digests_follow_fast_hashes(
            old(db)@.files,
            digest_views(digests@),
        ) ==> hashes_consistent(final(db)@.files),
{
    let ghost start = db@.files;
    let ghost items = digest_views(digests@);
    let mut i: usize = 0;
    proof {
        lemma_filter_empty(items.take(0), was_read());
    }
    while i < digests.len()
        invariant
            i <= digests.len(),
            db.wf(),
            items == digest_views(digests@),
            db@.directories == old(db)@.directories,
            db@.rules == old(db)@.rules,
            db@.files == with_full_hashes(start, items.take(i as int)),
            progress@ == (ScanProgressView {
                files_hashed: bumped_by(
                    old(progress)@.files_hashed,
                    items.take(i as int).filter(was_read()).len(),
                ),
                ..old(progress)@
            }),
        decreases digests.len() - i,
    {
        proof {
            assert(items.take(i + 1).drop_last() =~= items.take(i as int));
            lemma_filter_step(items, was_read(), i as int);
        }
        match &digests[i].digest {
            Some(digest) => {
                db.update_full_hash(digests[i].id, digest.as_str());
                progress.inc_hashed();
            },
            None => {},
        }
        i += 1;
    }
    proof {
        assert(items.take(i as int) =~= items);
        if hashes_consistent(start) && digests_follow_fast_hashes(start, items) {
            lemma_full_hashes_consistent(start, items);
        }
    }
}

/// Recording full hashes changes nothing of a row but its full hash.
pub proof fn lemma_full_hashes_keep_rows(files: Seq<FileRowView>, digests: Seq<FullDigestView>)
    ensures
        with_full_hashes(files, digests).len() == files.len(),
        forall|k: int|
            0 <= k < files.len() ==> (#[trigger] with_full_hashes(files, digests)[k]) == (
            FileRowView { full_hash: with_full_hashes(files, digests)[k].full_hash, ..files[k] }),
    decreases digests.len(),
{
    if digests.len() > 0 {
        lemma_full_hashes_keep_rows(files, digests.drop_last());
    }
}

/// Full hashes recorded for files that have fast hashes keep the hashes
/// consistent.
pub proof fn lemma_full_hashes_consistent(files: Seq<FileRowView>, digests: Seq<FullDigestView>)
    requires
        hashes_consistent(files),
        digests_follow_fast_hashes(files, digests),
    ensures
        hashes_consistent(with_full_hashes(files, digests)),
    decreases digests.len(),
{
    lemma_full_hashes_keep_rows(files, digests);
    let after = with_full_hashes(files, digests);
    if digests.len() > 0 {
        let rest = digests.drop_last();
        assert forall|k: int, j: int|
            0 <= k < files.len() && 0 <= j < rest.len() && (#[trigger] rest[j]).digest is Some && (
            #[trigger] files[k]).id == rest[j].id implies files[k].fast_hash is Some by {
            assert(rest[j] == digests[j]);
        }
        lemma_full_hashes_consistent(files, rest);
        lemma_full_hashes_keep_rows(files, rest);
        let before = with_full_hashes(files, rest);
        assert forall|k: int| 0 <= k < after.len() && (#[trigger] after[k]).full_hash is Some implies
            after[k].fast_hash is Some by {
            let last = digests[digests.len() - 1];
            if last.digest is Some && before[k].id == last.id {
                assert(files[k].id == last.id);
                assert(files[k].fast_hash is Some);
            } else {
                assert(after[k] == before[k]);
            }
        }
    }
}

/// What a list of reads stands for.
pub open spec fn read_views(reads: Seq<Option<String>>) -> Seq<Option<Seq<char>>> {
    reads.map_values(|r: Option<String>| text_view(r))
}

/// The candidates of stage two with what was read of them: the candidate at
/// each place with the read at that place, and with nothing where the reads
/// end before the candidates do.
pub open spec fn paired(candidates: Seq<FileRowView>, reads: Seq<Option<Seq<char>>>) -> Seq<
    FullDigestView,
> {
    Seq::new(
        candidates.len(),
        |i: int|
            FullDigestView {
                id: candidates[i].id,
                digest: if i < reads.len() {
                    reads[i]
                } else {
                    None
                },
            },
    )
}

/// Each candidate of stage two has a read, and each could be read.
pub open spec fn all_read(files: Seq<FileRowView>, reads: Seq<Option<Seq<char>>>) -> bool {
    reads.len() >= files.filter(candidate_in(files)).len() && forall|i: int|
        0 <= i < files.filter(candidate_in(files)).len() ==> (#[trigger] reads[i]) is Some
}

/// Stage two: records the full hashes of the candidates, given as what was
/// read of each candidate in the order in which
/// `Db::candidates_needing_full_hash` hands them out. The function pairs the
/// reads with the candidates itself, so that a full hash goes to no file
/// but a candidate: every file that has a full hash afterwards has a fast
/// hash, and a file whose size and fast hash no other file shares is left
/// as it is. A candidate that could not be read keeps its row, so that the
/// next scan tries it again; where all were read, stage two has nothing
/// left to read, and of two files with the same size above zero and the
/// same fast hash both have a full hash.
pub fn record_candidate_hashes(
    db: &mut Db,
    progress: &mut ScanProgress,
    reads: &Vec<Option<String>>,
)
    requires
        old(db).wf(),
    ensures
        final(db).wf(),
        final(db)@.directories == old(db)@.directories,
        final(db)@.rules == old(db)@.rules,
        final(db)@.files == with_full_hashes(
            old(db)@.files,
            paired(old(db)@.files.filter(candidate_in(old(db)@.files)), read_views(reads@)),
        ),
        final(progress)@ == (ScanProgressView {
            files_hashed: bumped_by(
                old(progress)@.files_hashed,
                paired(
                    old(db)@.files.filter(candidate_in(old(db)@.files)),
                    read_views(reads@),
                ).filter(was_read()).len(),
            ),
            ..old(progress)@
        }),
        hashes_consistent(old(db)@.files) ==> hashes_consistent(final(db)@.files),
        final(db)@.files.len() == old(db)@.files.len(),
        forall|k: int|
            0 <= k < old(db)@.files.len() && !shares_fast_hash(
                old(db)@.files,
                #[trigger] old(db)@.files[k],
            ) ==> final(db)@.files[k] == old(db)@.files[k],
        all_read(old(db)@.files, read_views(reads@)) ==> final(db)@.files.filter(
            candidate_in(final(db)@.files),
        ).len() == 0,
        all_read(old(db)@.files, read_views(reads@)) ==> forall|a: int, b: int|
            0 <= a < final(db)@.files.len() && 0 <= b < final(db)@.files.len() && a != b && (
            #[trigger] final(db)@.files[a]).size == (#[trigger] final(db)@.files[b]).size
                && final(db)@.files[a].size > 0 && final(db)@.files[a].fast_hash is Some
                && final(db)@.files[a].fast_hash == final(db)@.files[b].fast_hash
                ==> final(db)@.files[a].full_hash is Some && final(db)@.files[b].full_hash is Some,
{
    let ghost files = db@.files;
    let ghost dirs = db@.directories;
    let ghost given = read_views(reads@);
    let candidates = db.candidates_needing_full_hash();
    let ghost rows = file_views(candidates@);
    let ghost pairs = paired(rows, given);
    let mut digests: Vec<FullDigest> = Vec::new();
    let mut i: usize = 0;
    while i < candidates.len()
        invariant
            i <= candidates.len(),
            rows == file_views(candidates@),
            given == read_views(reads@),
            pairs == paired(rows, given),
            digest_views(digests@) =~= pairs.take(i as int),
        decreases candidates.len() - i,
    {
        let digest = if i < reads.len() {
            crate::rows::clone_text(&reads[i])
        } else {
            None
        };
        let ghost before = digest_views(digests@);
        digests.push(FullDigest { id: candidates[i].id, digest });
        proof {
            assert(digest_views(digests@) =~= before.push(pairs[i as int]));
        }
        i += 1;
    }
    proof {
        assert(pairs.take(i as int) =~= pairs);
        lemma_filter_order(files, candidate_in(files));
        let pos = kept_positions(files, candidate_in(files));
        assert forall|k: int| 0 <= k < pairs.len() implies exists|c: int|
            0 <= c < files.len() && crate::model::needs_full_hash(files, #[trigger] files[c])
                && files[c].id == (#[trigger] pairs[k]).id by {
            assert(rows[k] == files[pos[k]]);
            assert(candidate_in(files)(files[pos[k]]));
        }
        assert(crate::laws::digests_among_candidates(files, pairs));
        lemma_full_hashes_keep_rows(files, pairs);
        if hashes_consistent(files) {
            crate::laws::law_candidates_have_fast_hashes(files, dirs, pairs);
        }
        assert forall|k: int|
            0 <= k < files.len() && !shares_fast_hash(files, #[trigger] files[k]) implies
            with_full_hashes(files, pairs)[k] == files[k] by {
            crate::laws::law_unique_fast_hash_is_not_read(files, dirs, pairs, k);
        }
        if all_read(files, given) {
            assert(crate::laws::digests_cover_candidates(files, pairs));
            crate::laws::law_stage_two_leaves_no_candidates(files, dirs, pairs);
            let after = with_full_hashes(files, pairs);
            assert forall|a: int, b: int|
                0 <= a < after.len() && 0 <= b < after.len() && a != b && (#[trigger] after[a]).size
                    == (#[trigger] after[b]).size && after[a].size > 0 && after[a].fast_hash is Some
                    && after[a].fast_hash == after[b].fast_hash implies
                after[a].full_hash is Some && after[b].full_hash is Some by {
                crate::laws::law_shared_fast_hash_gets_full_hash(files, dirs, pairs, a, b);
            }
        }
    }
    record_full_hashes(db, progress, &digests);
}

/// Marks the directory as scanned at `now`, and, where the scan is
/// recursive, puts its subdirectories at the end of the queue. This is the
/// last step of a directory's scan: a scan that was cut short before it
/// reads the directory again.
pub fn finish_directory(
    db: &mut Db,
    directory_id: i64,
    now: i64,
    recursive: bool,
    subdirs: &Vec<String>,
    queue: &mut VecDeque<String>,
)
    requires
        old(db).wf(),
    ensures
        final(db).wf(),
        final(db)@.directories == old(db)@.directories.map_values(mark_scanned(directory_id, now)),
        final(db)@.files == old(db)@.files,
        final(db)@.rules == old(db)@.rules,
        hashes_consistent(old(db)@.files) ==> hashes_consistent(final(db)@.files),
        text_views(final(queue)@) == if recursive {
            text_views(old(queue)@) + text_views(subdirs@)
        } else {
            text_views(old(queue)@)
        },
{
    db.set_directory_scanned(directory_id, now);
    if recursive {
        let ghost start = text_views(queue@);
        let ghost paths = text_views(subdirs@);
        let mut i: usize = 0;
        while i < subdirs.len()
            invariant
                i <= subdirs.len(),
                paths == text_views(subdirs@),
                text_views(queue@) =~= start + paths.take(i as int),
            decreases subdirs.len() - i,
        {
            let ghost prev = text_views(queue@);
            queue.push_back(subdirs[i].clone());
            proof {
                assert(text_views(queue@) =~= prev.push(paths[i as int]));
            }
            i += 1;
        }
        proof {
            assert(paths.take(i as int) =~= paths);
        }
    }
}

} // verus!
