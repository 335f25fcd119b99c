//! What the index has to say of a directory: how many duplicates lie under
//! it, which of its subdirectories hold some, and which of its own files are
//! duplicates.

use vstd::prelude::*;
use crate::db::Db;
use crate::model::{
    kept_positions, lemma_filter_fewer, lemma_filter_order,
    child_of, directory_at, duplicate_in_directory, stats_under, DbView, StoreError,
};
use crate::paths::{
    is_descendant, is_direct_child, lemma_descendant_is_longer, lemma_descendant_transitive,
};
use crate::rows::{
    directory_views, file_views, text_views, DirectoryRowView, FileRow, FileRowView,
};
use crate::text::{
    chars_of, padded, push_padded, push_signed_decimal, signed_decimal, starts_with, string_of,
};
use crate::tui::{fmt_size, size_text};

verus! {

/// The text without the slashes at its end.
pub open spec fn without_end_slashes(text: Seq<char>) -> Seq<char>
    decreases text.len(),
{
    if text.len() > 0 && text.last() == '/' {
        without_end_slashes(text.drop_last())
    } else {
        text
    }
}

/// The name of `child` as seen from `base`: what follows `base` and a slash,
/// where `child` begins with them, and `child` as it is otherwise. Slashes at
/// the end of `base` do not count.
pub open spec fn relative(base: Seq<char>, child: Seq<char>) -> Seq<char> {
    let prefix = without_end_slashes(base).push('/');
    if prefix.is_prefix_of(child) {
        child.skip(prefix.len() as int)
    } else {
        child
    }
}

/// The name of `child` as seen from `base`.
pub fn relative_name(base: &str, child: &str) -> (name: String)
    ensures
        name@ == relative(base@, child@),
{
    let mut prefix = chars_of(base);
    let ghost whole = prefix@;
    while prefix.len() > 0 && prefix[prefix.len() - 1] == '/'
        invariant
            without_end_slashes(prefix@) == without_end_slashes(whole),
        decreases prefix.len(),
    {
        let ghost before = prefix@;
        prefix.pop();
        proof {
            assert(prefix@ =~= before.drop_last());
        }
    }
    prefix.push('/');
    let path = chars_of(child);
    if starts_with(&path, &prefix) {
        let mut rest: Vec<char> = Vec::new();
        let mut i: usize = prefix.len();
        while i < path.len()
            invariant
                prefix.len() <= i <= path.len(),
                rest@ =~= path@.subrange(prefix.len() as int, i as int),
            decreases path.len() - i,
        {
            rest.push(path[i]);
            i += 1;
        }
        proof {
            assert(rest@ =~= path@.skip(prefix.len() as int));
        }
        string_of(&rest)
    } else {
        string_of(&path)
    }
}

/// A subdirectory with the duplicates that lie under it.
#[derive(Debug)]
pub struct ChildStats {
    pub path: String,
    pub count: i64,
    pub size: i64,
}

/// What a `ChildStats` stands for.
pub struct ChildStatsView {
    pub path: Seq<char>,
    pub count: i64,
    pub size: i64,
}

impl View for ChildStats {
    type V = ChildStatsView;

    open spec fn view(&self) -> ChildStatsView {
        ChildStatsView { path: self.path@, count: self.count, size: self.size }
    }
}

/// What a list of child statistics stands for.
pub open spec fn child_views(children: Seq<ChildStats>) -> Seq<ChildStatsView> {
    children.map_values(|c: ChildStats| c@)
}

/// What the index has to say of one directory.
#[derive(Debug)]
pub struct DirListing {
    /// The canonical path of the directory.
    pub path: String,
    /// Whether the index holds the directory.
    pub known: bool,
    /// How many duplicates lie at or under the directory.
    pub dup_count: i64,
    /// The sum of their sizes.
    pub dup_size: i64,
    /// The direct children under which duplicates lie.
    pub children: Vec<ChildStats>,
    /// The duplicates that stand directly in the directory.
    pub dup_files: Vec<FileRow>,
}

/// What a `DirListing` stands for.
pub struct DirListingView {
    pub path: Seq<char>,
    pub known: bool,
    pub dup_count: i64,
    pub dup_size: i64,
    pub children: Seq<ChildStatsView>,
    pub dup_files: Seq<FileRowView>,
}

impl View for DirListing {
    type V = DirListingView;

    open spec fn view(&self) -> DirListingView {
        DirListingView {
            path: self.path@,
            known: self.known,
            dup_count: self.dup_count,
            dup_size: self.dup_size,
            children: child_views(self.children@),
            dup_files: file_views(self.dup_files@),
        }
    }
}

/// The statistics of the children under which duplicates lie, in the order
/// of the children; none where a count or a sum does not fit in 64 bits.
pub open spec fn children_with_duplicates(files: Seq<FileRowView>, kids: Seq<DirectoryRowView>) -> Option<
    Seq<ChildStatsView>,
>
    decreases kids.len(),
{
    if kids.len() == 0 {
        Some(Seq::empty())
    } else {
        match (
            children_with_duplicates(files, kids.drop_last()),
            stats_under(files, kids.last().canonical_path),
        ) {
            (Some(rest), Some(stats)) => if stats.0 > 0 {
                Some(
                    rest.push(
                        ChildStatsView {
                            path: kids.last().canonical_path,
                            count: stats.0,
                            size: stats.1,
                        },
                    ),
                )
            } else {
                Some(rest)
            },
            _ => None,
        }
    }
}

/// What the index has to say of the directory `dir`; none where a count or
/// a sum does not fit in 64 bits. Of a directory that the index does not
/// hold it says no more than that.
pub open spec fn listing_of(v: DbView, dir: Seq<char>) -> Option<DirListingView> {
    match directory_at(v.directories, dir) {
        None => Some(
            DirListingView {
                path: dir,
                known: false,
                dup_count: 0,
                dup_size: 0,
                children: Seq::empty(),
                dup_files: Seq::empty(),
            },
        ),
        Some(row) => match (
            stats_under(v.files, dir),
            children_with_duplicates(v.files, v.directories.filter(child_of(dir))),
        ) {
            (Some(stats), Some(children)) => Some(
                DirListingView {
                    path: dir,
                    known: true,
                    dup_count: stats.0,
                    dup_size: stats.1,
                    children,
                    dup_files: v.files.filter(duplicate_in_directory(v.files, row.id)),
                },
            ),
            _ => None,
        },
    }
}

/// What the index has to say of the directory `dir`.
pub fn list_dir(db: &Db, dir: &str) -> (result: Result<DirListing, StoreError>)
    requires
        db.wf(),
    ensures
        match listing_of(db@, dir@) {
            Some(listing) => result is Ok && result->Ok_0@ == listing,
            None => result == Err::<DirListing, StoreError>(StoreError::Overflow),
        },
{
    let row = match db.get_directory(dir) {
        Some(row) => row,
        None => {
            let listing = DirListing {
                path: dir.to_owned(),
                known: false,
                dup_count: 0,
                dup_size: 0,
                children: Vec::new(),
                dup_files: Vec::new(),
            };
            proof {
                assert(listing@.children =~= Seq::<ChildStatsView>::empty());
                assert(listing@.dup_files =~= Seq::<FileRowView>::empty());
            }
            return Ok(listing);
        },
    };
    let ghost files = db@.files;
    let kids = db.child_directories(dir);
    let ghost rows = directory_views(kids@);
    let mut overflow = false;
    let (dup_count, dup_size) = match db.duplicate_stats_under(dir) {
        Ok(stats) => stats,
        Err(_) => {
            overflow = true;
            (0, 0)
        },
    };
    let mut children: Vec<ChildStats> = Vec::new();
    let mut failed = false;
    let mut i: usize = 0;
    while i < kids.len()
        invariant
            i <= kids.len(),
            files == db@.files,
            rows == directory_views(kids@),
            match children_with_duplicates(files, rows.take(i as int)) {
                Some(found) => !failed && child_views(children@) =~= found,
                None => failed,
            },
        decreases kids.len() - i,
    {
        proof {
            assert(rows.take(i + 1).drop_last() =~= rows.take(i as int));
            assert(rows.take(i + 1).last() == rows[i as int]);
        }
        if !failed {
            match db.duplicate_stats_under(kids[i].canonical_path.as_str()) {
                Ok((count, size)) => {
                    if count > 0 {
                        let ghost prev = child_views(children@);
                        children.push(
                            ChildStats { path: kids[i].canonical_path.clone(), count, size },
                        );
                        proof {
                            assert(child_views(children@) =~= prev.push(
                                ChildStatsView { path: rows[i as int].canonical_path, count, size },
                            ));
                        }
                    }
                },
                Err(_) => {
                    failed = true;
                },
            }
        }
        i += 1;
    }
    proof {
        assert(rows.take(i as int) =~= rows);
    }
    if overflow || failed {
        return Err(StoreError::Overflow);
    }
    let dup_files = db.duplicate_files_in_dir(row.id);
    Ok(DirListing { path: dir.to_owned(), known: true, dup_count, dup_size, children, dup_files })
}

// ----------------------------------------------------------------------------
// Lines
// ----------------------------------------------------------------------------

/// The width to which names are padded.
pub const NAME_WIDTH: usize = 40;

/// The line that names the directory.
pub open spec fn heading_line(path: Seq<char>) -> Seq<char> {
    "Canonical path: "@ + path
}

/// The line for a directory that the index does not hold.
pub open spec fn unknown_line() -> Seq<char> {
    "  (not in database — run 'fdedupe scan' first)"@
}

/// The line of the totals.
pub open spec fn totals_line(count: i64, size: i64) -> Seq<char> {
    "Duplicates: "@ + signed_decimal(count as int) + " files, "@ + size_text(size as int)
}

/// The line of a subdirectory under which duplicates lie.
pub open spec fn child_line(base: Seq<char>, child: ChildStatsView) -> Seq<char> {
    "  "@ + padded(relative(base, child.path).push('/'), NAME_WIDTH as nat) + "  "@ + signed_decimal(
        child.count as int,
    ) + " files, "@ + size_text(child.size as int)
}

/// The line of a duplicate file.
pub open spec fn file_line(file: FileRowView) -> Seq<char> {
    "  "@ + padded(file.name, NAME_WIDTH as nat) + "  "@ + size_text(file.size as int)
}

/// The lines of the subdirectories: none where there is no subdirectory to
/// show, else an empty line, a title, and a line for each.
pub open spec fn child_lines(base: Seq<char>, children: Seq<ChildStatsView>) -> Seq<Seq<char>> {
    if children.len() == 0 {
        Seq::empty()
    } else {
        seq![Seq::<char>::empty(), "Subdirectories with duplicates:"@] + children.map_values(
            |c: ChildStatsView| child_line(base, c),
        )
    }
}

/// The lines of the duplicate files: none where there is no file to show,
/// else an empty line, a title, and a line for each.
pub open spec fn file_lines(files: Seq<FileRowView>) -> Seq<Seq<char>> {
    if files.len() == 0 {
        Seq::empty()
    } else {
        seq![Seq::<char>::empty(), "Duplicate files in this directory:"@] + files.map_values(
            |f: FileRowView| file_line(f),
        )
    }
}

/// The lines of a listing: an empty line and the heading; then, for a
/// directory that the index holds, the totals, the subdirectories and the
/// files, and for another the line that says so.
pub open spec fn listing_lines(listing: DirListingView) -> Seq<Seq<char>> {
    seq![Seq::<char>::empty(), heading_line(listing.path)] + if listing.known {
        seq![totals_line(listing.dup_count, listing.dup_size)] + child_lines(
            listing.path,
            listing.children,
        ) + file_lines(listing.dup_files)
    } else {
        seq![unknown_line()]
    }
}

/// The lines of a listing.
pub fn render(listing: &DirListing) -> (lines: Vec<String>)
    ensures
        text_views(lines@) == listing_lines(listing@),
{
    let mut lines: Vec<String> = Vec::new();
    lines.push(String::new());
    let mut heading = "Canonical path: ".to_owned();
    heading.append(listing.path.as_str());
    lines.push(heading);
    if !listing.known {
        lines.push("  (not in database — run 'fdedupe scan' first)".to_owned());
        proof {
            assert(text_views(lines@) =~= listing_lines(listing@));
        }
        return lines;
    }
    let mut totals = "Duplicates: ".to_owned();
    push_signed_decimal(&mut totals, listing.dup_count);
    totals.append(" files, ");
    totals.append(fmt_size(listing.dup_size).as_str());
    lines.push(totals);
    let ghost head = seq![
        Seq::<char>::empty(),
        heading_line(listing@.path),
        totals_line(listing@.dup_count, listing@.dup_size),
    ];
    proof {
        assert(text_views(lines@) =~= head);
    }
    let ghost children = listing@.children;
    let ghost base = listing@.path;
    if listing.children.len() > 0 {
        lines.push(String::new());
        lines.push("Subdirectories with duplicates:".to_owned());
        let ghost title = head + seq![Seq::<char>::empty(), "Subdirectories with duplicates:"@];
        proof {
            assert(text_views(lines@) =~= title);
        }
        let mut i: usize = 0;
        while i < listing.children.len()
            invariant
                i <= listing.children.len(),
                children == listing@.children,
                base == listing@.path,
                text_views(lines@) =~= title + children.take(i as int).map_values(
                    |c: ChildStatsView| child_line(base, c),
                ),
            decreases listing.children.len() - i,
        {
            let child = &listing.children[i];
            let mut name = relative_name(listing.path.as_str(), child.path.as_str());
            name.push('/');
            let mut line = "  ".to_owned();
            push_padded(&mut line, name.as_str(), NAME_WIDTH);
            line.append("  ");
            push_signed_decimal(&mut line, child.count);
            line.append(" files, ");
            line.append(fmt_size(child.size).as_str());
            let ghost prev = text_views(lines@);
            lines.push(line);
            proof {
                assert(line@ =~= child_line(base, children[i as int]));
                assert(text_views(lines@) =~= prev.push(child_line(base, children[i as int])));
                assert(children.take(i + 1).map_values(|c: ChildStatsView| child_line(base, c))
                    =~= children.take(i as int).map_values(
                    |c: ChildStatsView| child_line(base, c),
                ).push(child_line(base, children[i as int])));
            }
            i += 1;
        }
        proof {
            assert(children.take(i as int) =~= children);
        }
    }
    let ghost middle = head + child_lines(base, children);
    proof {
        assert(text_views(lines@) =~= middle);
    }
    let ghost files = listing@.dup_files;
    if listing.dup_files.len() > 0 {
        lines.push(String::new());
        lines.push("Duplicate files in this directory:".to_owned());
        let ghost title = middle + seq![Seq::<char>::empty(), "Duplicate files in this directory:"@];
        proof {
            assert(text_views(lines@) =~= title);
        }
        let mut i: usize = 0;
        while i < listing.dup_files.len()
            invariant
                i <= listing.dup_files.len(),
                files == listing@.dup_files,
                text_views(lines@) =~= title + files.take(i as int).map_values(
                    |f: FileRowView| file_line(f),
                ),
            decreases listing.dup_files.len() - i,
        {
            let file = &listing.dup_files[i];
            let mut line = "  ".to_owned();
            push_padded(&mut line, file.name.as_str(), NAME_WIDTH);
            line.append("  ");
            line.append(fmt_size(file.size).as_str());
            let ghost prev = text_views(lines@);
            lines.push(line);
            proof {
                assert(line@ =~= file_line(files[i as int]));
                assert(text_views(lines@) =~= prev.push(file_line(files[i as int])));
                assert(files.take(i + 1).map_values(|f: FileRowView| file_line(f)) =~= files.take(
                    i as int,
                ).map_values(|f: FileRowView| file_line(f)).push(file_line(files[i as int])));
            }
            i += 1;
        }
        proof {
            assert(files.take(i as int) =~= files);
        }
    }
    proof {
        assert(text_views(lines@) =~= listing_lines(listing@));
    }
    lines
}

/// The lines of the directory `dir` and, as far down as `depth` levels, of
/// the directories of the index below it: each directory is followed by its
/// direct children in the order of the index, each with what lies below it.
/// None where a count or a sum does not fit in 64 bits.
pub open spec fn tree_lines(v: DbView, dir: Seq<char>, depth: nat) -> Option<Seq<Seq<char>>>
    decreases depth, 0nat,
{
    match listing_of(v, dir) {
        None => None,
        Some(listing) => if !listing.known || depth == 0 {
            Some(listing_lines(listing))
        } else {
            match children_lines(v, v.directories.filter(child_of(dir)), (depth - 1) as nat) {
                Some(below) => Some(listing_lines(listing) + below),
                None => None,
            }
        },
    }
}

/// The lines of each of the directories `kids`, one after the other, as far
/// down as `depth` levels below each.
pub open spec fn children_lines(v: DbView, kids: Seq<DirectoryRowView>, depth: nat) -> Option<
    Seq<Seq<char>>,
>
    decreases depth, kids.len() + 1,
{
    if kids.len() == 0 {
        Some(Seq::empty())
    } else {
        match (
            children_lines(v, kids.drop_last(), depth),
            tree_lines(v, kids.last().canonical_path, depth),
        ) {
            (Some(before), Some(last)) => Some(before + last),
            _ => None,
        }
    }
}

/// How far down a listing goes: through every level that the index can
/// hold where it is recursive, and no further than the directory otherwise.
pub open spec fn listing_depth(v: DbView, recursive: bool) -> nat {
    if recursive {
        v.directories.len()
    } else {
        0
    }
}

fn print_tree(db: &Db, dir: &str, depth: usize, lines: &mut Vec<String>) -> (result: Result<
    (),
    StoreError,
>)
    requires
        db.wf(),
    ensures
        match tree_lines(db@, dir@, depth as nat) {
            Some(more) => result is Ok && text_views(final(lines)@) == text_views(old(lines)@)
                + more,
            None => result == Err::<(), StoreError>(StoreError::Overflow),
        },
    decreases depth,
{
    let ghost start = text_views(lines@);
    let listing = match list_dir(db, dir) {
        Ok(listing) => listing,
        Err(e) => {
            return Err(e);
        },
    };
    let mut own = render(&listing);
    let ghost own_lines = text_views(own@);
    lines.append(&mut own);
    proof {
        assert(text_views(lines@) =~= start + own_lines);
    }
    if !listing.known || depth == 0 {
        return Ok(());
    }
    let kids = db.child_directories(dir);
    let ghost rows = directory_views(kids@);
    let ghost v = db@;
    let ghost below = (depth - 1) as nat;
    let mut i: usize = 0;
    while i < kids.len()
        invariant
            i <= kids.len(),
            db.wf(),
            v == db@,
            depth > 0,
            below == depth - 1,
            rows == directory_views(kids@),
            rows == v.directories.filter(child_of(dir@)),
            listing_of(v, dir@) == Some(listing@),
            listing@.known,
            children_lines(v, rows.take(i as int), below) is Some,
            text_views(lines@) =~= start + own_lines + children_lines(
                v,
                rows.take(i as int),
                below,
            )->Some_0,
        decreases kids.len() - i,
    {
        proof {
            assert(rows.take(i + 1).drop_last() =~= rows.take(i as int));
            assert(rows.take(i + 1).last() == rows[i as int]);
        }
        match print_tree(db, kids[i].canonical_path.as_str(), depth - 1, lines) {
            Ok(()) => {},
            Err(e) => {
                proof {
                    assert(tree_lines(v, rows[i as int].canonical_path, below) is None);
                    assert(children_lines(v, rows.take(i + 1), below) is None);
                    lemma_children_lines_fail(v, rows, below, i as int + 1);
                }
                return Err(e);
            },
        }
        i += 1;
    }
    proof {
        assert(rows.take(i as int) =~= rows);
    }
    Ok(())
}

/// Where the lines of the first `n` children cannot be had, those of all
/// the children cannot be had.
proof fn lemma_children_lines_fail(v: DbView, kids: Seq<DirectoryRowView>, depth: nat, n: int)
    requires
        0 <= n <= kids.len(),
        children_lines(v, kids.take(n), depth) is None,
    ensures
        children_lines(v, kids, depth) is None,
    decreases kids.len() - n,
{
    if n < kids.len() {
        assert(kids.take(n + 1).drop_last() =~= kids.take(n));
        lemma_children_lines_fail(v, kids, depth, n + 1);
    } else {
        assert(kids.take(n) =~= kids);
    }
}

/// The lines that list the directory `dir`, and with `recursive` those of
/// the directories of the index below it, each directory followed by its
/// direct children.
pub fn print_dir(db: &Db, dir: &str, recursive: bool) -> (result: Result<Vec<String>, StoreError>)
    requires
        db.wf(),
    ensures
        match tree_lines(db@, dir@, listing_depth(db@, recursive)) {
            Some(lines) => result is Ok && text_views(result->Ok_0@) == lines,
            None => result == Err::<Vec<String>, StoreError>(StoreError::Overflow),
        },
{
    let depth = if recursive {
        db.directories().len()
    } else {
        0
    };
    let mut lines: Vec<String> = Vec::new();
    match print_tree(db, dir, depth, &mut lines) {
        Ok(()) => {
            proof {
                assert(text_views(Seq::<String>::empty()) =~= Seq::<Seq<char>>::empty());
            }
            Ok(lines)
        },
        Err(e) => Err(e),
    }
}

// ----------------------------------------------------------------------------
// A recursive listing reaches every level
// ----------------------------------------------------------------------------

/// The directory rows that descend from `dir`.
pub open spec fn descends_from(dir: Seq<char>) -> spec_fn(DirectoryRowView) -> bool {
    |d: DirectoryRowView| is_descendant(d.canonical_path, dir)
}

/// How many directories of the index descend from `dir`.
pub open spec fn directories_below(v: DbView, dir: Seq<char>) -> nat {
    v.directories.filter(descends_from(dir)).len()
}

/// Fewer directories descend from a child of a directory than from the
/// directory.
proof fn lemma_fewer_below_a_child(v: DbView, dir: Seq<char>, at: int)
    requires
        0 <= at < v.directories.len(),
        is_direct_child(v.directories[at].canonical_path, dir),
    ensures
        directories_below(v, v.directories[at].canonical_path) < directories_below(v, dir),
{
    let child = v.directories[at].canonical_path;
    let p = descends_from(child);
    let q = descends_from(dir);
    assert forall|k: int| 0 <= k < v.directories.len() && p(#[trigger] v.directories[k]) implies q(
        v.directories[k],
    ) by {
        lemma_descendant_transitive(v.directories[k].canonical_path, child, dir);
    }
    if is_descendant(child, child) {
        lemma_descendant_is_longer(child, child);
    }
    lemma_filter_fewer(v.directories, p, q, at);
}

/// Below children from each of which no more than `depth` directories
/// descend, one level more shows nothing more.
proof fn lemma_children_reach_every_level(v: DbView, kids: Seq<DirectoryRowView>, depth: nat)
    requires
        forall|k: int|
            0 <= k < kids.len() ==> depth >= directories_below(
                v,
                (#[trigger] kids[k]).canonical_path,
            ),
    ensures
        children_lines(v, kids, depth) == children_lines(v, kids, depth + 1),
    decreases depth, kids.len() + 1,
{
    if kids.len() > 0 {
        let rest = kids.drop_last();
        assert forall|k: int| 0 <= k < rest.len() implies depth >= directories_below(
            v,
            (#[trigger] rest[k]).canonical_path,
        ) by {
            assert(rest[k] == kids[k]);
        }
        lemma_children_reach_every_level(v, rest, depth);
        assert(depth >= directories_below(v, kids[kids.len() - 1].canonical_path));
        law_listing_reaches_every_level(v, kids.last().canonical_path, depth);
    }
}

/// A listing that goes as many levels down as there are directories below
/// the one listed shows everything: one level more shows nothing more.
pub proof fn law_listing_reaches_every_level(v: DbView, dir: Seq<char>, depth: nat)
    requires
        depth >= directories_below(v, dir),
    ensures
        tree_lines(v, dir, depth) == tree_lines(v, dir, depth + 1),
    decreases depth, 0nat,
{
    let kids = v.directories.filter(child_of(dir));
    lemma_filter_order(v.directories, child_of(dir));
    let pos = kept_positions(v.directories, child_of(dir));
    assert forall|k: int| 0 <= k < kids.len() implies directories_below(
        v,
        (#[trigger] kids[k]).canonical_path,
    ) < directories_below(v, dir) by {
        assert(kids[k] == v.directories[pos[k]]);
        assert(child_of(dir)(v.directories[pos[k]]));
        lemma_fewer_below_a_child(v, dir, pos[k]);
    }
    match listing_of(v, dir) {
        Some(listing) => {
            if listing.known {
                if depth == 0 {
                    if kids.len() > 0 {
                        assert(directories_below(v, kids[0].canonical_path) < directories_below(
                            v,
                            dir,
                        ));
                    }
                    assert(children_lines(v, kids, 0) == Some(Seq::<Seq<char>>::empty()));
                    assert(listing_lines(listing) + Seq::<Seq<char>>::empty() =~= listing_lines(
                        listing,
                    ));
                } else {
                    lemma_children_reach_every_level(v, kids, (depth - 1) as nat);
                }
            }
        },
        None => {},
    }
}

/// A recursive listing shows every directory of the index below the one
/// listed: it goes as many levels down as the index has directories, and
/// going further would show nothing more.
pub proof fn law_recursive_listing_is_complete(v: DbView, dir: Seq<char>, further: nat)
    ensures
        tree_lines(v, dir, listing_depth(v, true)) == tree_lines(
            v,
            dir,
            listing_depth(v, true) + further,
        ),
    decreases further,
{
    if further > 0 {
        law_recursive_listing_is_complete(v, dir, (further - 1) as nat);
        v.directories.lemma_filter_len(descends_from(dir));
        law_listing_reaches_every_level(v, dir, (listing_depth(v, true) + further - 1) as nat);
    }
}

} // verus!
