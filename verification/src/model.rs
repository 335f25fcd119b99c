//! The index as mathematics: three sequences of rows, the conditions that
//! every index meets, and what each operation makes of it.

use vstd::prelude::*;
use crate::paths::{at_or_under, in_tree, is_direct_child};
use crate::rows::{DirectoryRowView, DuplicateGroupView, FileRowView, RuleRowView};

verus! {

/// What an index holds: its rows, each table in the order in which the index
/// hands it out.
pub struct DbView {
    pub directories: Seq<DirectoryRowView>,
    pub files: Seq<FileRowView>,
    pub rules: Seq<RuleRowView>,
}

/// Why the index refused a row.
#[derive(Debug, Clone, Copy, PartialEq, Eq, Structural)]
pub enum StoreError {
    /// The file names a directory that the index does not hold.
    UnknownDirectory,
    /// Another file of the same directory has the same name.
    DuplicateName,
    /// No identifier is left for a new row.
    IdExhausted,
    /// A count or a sum of sizes does not fit in 64 bits.
    Overflow,
}

// ----------------------------------------------------------------------------
// Identifiers
// ----------------------------------------------------------------------------

/// The largest of the identifiers, and zero where none is positive.
pub open spec fn max_id(ids: Seq<i64>) -> int
    decreases ids.len(),
{
    if ids.len() == 0 {
        0
    } else {
        let rest = max_id(ids.drop_last());
        if ids.last() > rest {
            ids.last() as int
        } else {
            rest
        }
    }
}

/// The identifiers of the directory rows.
pub open spec fn directory_ids(rows: Seq<DirectoryRowView>) -> Seq<i64> {
    rows.map_values(|r: DirectoryRowView| r.id)
}

/// The identifiers of the file rows.
pub open spec fn file_ids(rows: Seq<FileRowView>) -> Seq<i64> {
    rows.map_values(|r: FileRowView| r.id)
}

/// The identifiers of the rules.
pub open spec fn rule_ids(rows: Seq<RuleRowView>) -> Seq<i64> {
    rows.map_values(|r: RuleRowView| r.id)
}

/// No identifier exceeds `max_id`, which is never negative.
pub proof fn lemma_max_id_bounds(ids: Seq<i64>)
    ensures
        max_id(ids) >= 0,
        forall|k: int| 0 <= k < ids.len() ==> #[trigger] ids[k] <= max_id(ids),
    decreases ids.len(),
{
    if ids.len() > 0 {
        lemma_max_id_bounds(ids.drop_last());
        assert forall|k: int| 0 <= k < ids.len() implies #[trigger] ids[k] <= max_id(ids) by {
            if k < ids.len() - 1 {
                assert(ids.drop_last()[k] == ids[k]);
            }
        }
    }
}

// ----------------------------------------------------------------------------
// Well-formedness
// ----------------------------------------------------------------------------

/// Some directory row has the identifier `id`.
pub open spec fn has_directory(dirs: Seq<DirectoryRowView>, id: i64) -> bool {
    exists|k: int| 0 <= k < dirs.len() && (#[trigger] dirs[k]).id == id
}

/// Some directory row has the path `path`.
pub open spec fn has_directory_path(dirs: Seq<DirectoryRowView>, path: Seq<char>) -> bool {
    exists|k: int| 0 <= k < dirs.len() && (#[trigger] dirs[k]).canonical_path == path
}

/// Some file row has the path `path`.
pub open spec fn has_file_path(files: Seq<FileRowView>, path: Seq<char>) -> bool {
    exists|k: int| 0 <= k < files.len() && (#[trigger] files[k]).canonical_path == path
}

/// No two directory rows share an identifier or a path.
pub open spec fn directories_wf(dirs: Seq<DirectoryRowView>) -> bool {
    forall|i: int, j: int|
        0 <= i < j < dirs.len() ==> (#[trigger] dirs[i]).id != (#[trigger] dirs[j]).id
            && dirs[i].canonical_path != dirs[j].canonical_path
}

/// No two file rows share an identifier, a path, or a name within one
/// directory, and each belongs to a directory of the index.
pub open spec fn files_wf(files: Seq<FileRowView>, dirs: Seq<DirectoryRowView>) -> bool {
    &&& forall|i: int, j: int|
        0 <= i < j < files.len() ==> (#[trigger] files[i]).id != (#[trigger] files[j]).id
            && files[i].canonical_path != files[j].canonical_path && !(files[i].directory_id
            == files[j].directory_id && files[i].name == files[j].name)
    &&& forall|i: int|
        0 <= i < files.len() ==> has_directory(dirs, (#[trigger] files[i]).directory_id)
}

/// No two rules share an identifier, and they stand by falling priority.
pub open spec fn rules_wf(rules: Seq<RuleRowView>) -> bool {
    forall|i: int, j: int|
        0 <= i < j < rules.len() ==> (#[trigger] rules[i]).id != (#[trigger] rules[j]).id
            && rules[i].priority >= rules[j].priority
}

/// The conditions that every index meets.
pub open spec fn store_wf(v: DbView) -> bool {
    &&& directories_wf(v.directories)
    &&& files_wf(v.files, v.directories)
    &&& rules_wf(v.rules)
}

/// Every file row that has a full hash has a fast hash.
pub open spec fn hashes_consistent(files: Seq<FileRowView>) -> bool {
    forall|i: int|
        0 <= i < files.len() ==> ((#[trigger] files[i]).full_hash is Some
            ==> files[i].fast_hash is Some)
}

// ----------------------------------------------------------------------------
// Selections
// ----------------------------------------------------------------------------

/// The directory rows that are direct children of `parent`.
pub open spec fn child_of(parent: Seq<char>) -> spec_fn(DirectoryRowView) -> bool {
    |d: DirectoryRowView| is_direct_child(d.canonical_path, parent)
}

/// The directory rows outside the tree of `root`.
pub open spec fn outside_tree(root: Seq<char>) -> spec_fn(DirectoryRowView) -> bool {
    |d: DirectoryRowView| !in_tree(d.canonical_path, root)
}

/// The file rows of the directory `directory_id`.
pub open spec fn in_directory(directory_id: i64) -> spec_fn(FileRowView) -> bool {
    |f: FileRowView| f.directory_id == directory_id
}

/// The file rows other than the one with identifier `id`.
pub open spec fn not_file_id(id: i64) -> spec_fn(FileRowView) -> bool {
    |f: FileRowView| f.id != id
}

/// The file rows other than the one with path `path`.
pub open spec fn not_file_path(path: Seq<char>) -> spec_fn(FileRowView) -> bool {
    |f: FileRowView| f.canonical_path != path
}

/// The file rows whose full hash is `digest`.
pub open spec fn with_full_hash(digest: Seq<char>) -> spec_fn(FileRowView) -> bool {
    |f: FileRowView| f.full_hash == Some(digest)
}

/// The file belongs to a directory in the tree of `root`.
pub open spec fn file_in_tree(dirs: Seq<DirectoryRowView>, root: Seq<char>, f: FileRowView) -> bool {
    exists|k: int|
        0 <= k < dirs.len() && (#[trigger] dirs[k]).id == f.directory_id && in_tree(
            dirs[k].canonical_path,
            root,
        )
}

/// The file rows whose directory lies outside the tree of `root`.
pub open spec fn file_outside_tree(dirs: Seq<DirectoryRowView>, root: Seq<char>) -> spec_fn(
    FileRowView,
) -> bool {
    |f: FileRowView| !file_in_tree(dirs, root, f)
}

/// Another row of `files` has the size and the fast hash of `f`.
pub open spec fn shares_fast_hash(files: Seq<FileRowView>, f: FileRowView) -> bool {
    exists|k: int|
        0 <= k < files.len() && (#[trigger] files[k]).id != f.id && files[k].size == f.size
            && files[k].fast_hash == f.fast_hash
}

/// What stage two of the pipeline has to read: the file has no full hash, it
/// has a fast hash, it is not empty, and another row has its size and fast hash.
pub open spec fn needs_full_hash(files: Seq<FileRowView>, f: FileRowView) -> bool {
    &&& f.full_hash is None
    &&& f.fast_hash is Some
    &&& f.size > 0
    &&& shares_fast_hash(files, f)
}

/// The rows that stage two of the pipeline has to read.
pub open spec fn candidate_in(files: Seq<FileRowView>) -> spec_fn(FileRowView) -> bool {
    |f: FileRowView| needs_full_hash(files, f)
}

/// The file has a full hash, and another row of `files` has the same one.
pub open spec fn is_duplicate(files: Seq<FileRowView>, f: FileRowView) -> bool {
    &&& f.full_hash is Some
    &&& exists|k: int|
        0 <= k < files.len() && (#[trigger] files[k]).id != f.id && files[k].full_hash
            == f.full_hash
}

/// The duplicates that lie at or under `prefix`.
pub open spec fn duplicate_under(files: Seq<FileRowView>, prefix: Seq<char>) -> spec_fn(
    FileRowView,
) -> bool {
    |f: FileRowView| at_or_under(f.canonical_path, prefix) && is_duplicate(files, f)
}

/// The duplicates that stand directly in the directory `directory_id`.
pub open spec fn duplicate_in_directory(files: Seq<FileRowView>, directory_id: i64) -> spec_fn(
    FileRowView,
) -> bool {
    |f: FileRowView| f.directory_id == directory_id && is_duplicate(files, f)
}

/// The sum of the sizes of the rows.
pub open spec fn total_size(files: Seq<FileRowView>) -> int
    decreases files.len(),
{
    if files.len() == 0 {
        0
    } else {
        total_size(files.drop_last()) + files.last().size
    }
}

/// How many duplicates lie at or under `prefix` and the sum of their sizes,
/// where both fit in 64 bits.
pub open spec fn stats_under(files: Seq<FileRowView>, prefix: Seq<char>) -> Option<(i64, i64)> {
    let found = files.filter(duplicate_under(files, prefix));
    if found.len() <= i64::MAX && i64::MIN <= total_size(found) <= i64::MAX {
        Some((found.len() as i64, total_size(found) as i64))
    } else {
        None
    }
}

/// At least two rows of `files` have the full hash `digest`.
pub open spec fn is_shared_hash(files: Seq<FileRowView>, digest: Seq<char>) -> bool {
    exists|i: int, j: int|
        0 <= i < j < files.len() && (#[trigger] files[i]).full_hash == Some(digest)
            && (#[trigger] files[j]).full_hash == Some(digest)
}

/// The position of the first row of `files` whose full hash is `digest`, and
/// the number of rows where there is none.
pub open spec fn first_with_hash(files: Seq<FileRowView>, digest: Seq<char>) -> int
    decreases files.len(),
{
    if files.len() == 0 {
        0
    } else if files.first().full_hash == Some(digest) {
        0
    } else {
        1 + first_with_hash(files.drop_first(), digest)
    }
}

/// The duplicate groups of `files`: one for each full hash that two rows or
/// more share, with all the rows of that hash in the order of `files`, and the
/// groups in the order in which their first rows stand in `files`.
pub open spec fn groups_of(files: Seq<FileRowView>, groups: Seq<DuplicateGroupView>) -> bool {
    &&& forall|k: int|
        0 <= k < groups.len() ==> is_shared_hash(files, (#[trigger] groups[k]).full_hash)
            && groups[k].files == files.filter(with_full_hash(groups[k].full_hash))
    &&& forall|digest: Seq<char>| #[trigger]
        is_shared_hash(files, digest) ==> exists|k: int|
            0 <= k < groups.len() && (#[trigger] groups[k]).full_hash == digest
    &&& forall|a: int, b: int|
        0 <= a < b < groups.len() ==> first_with_hash(files, (#[trigger] groups[a]).full_hash)
            < first_with_hash(files, (#[trigger] groups[b]).full_hash)
}

// ----------------------------------------------------------------------------
// What the operations make of the index
// ----------------------------------------------------------------------------

/// The position of the directory row with the path `path`.
pub open spec fn directory_position(dirs: Seq<DirectoryRowView>, path: Seq<char>) -> int {
    choose|k: int| 0 <= k < dirs.len() && (#[trigger] dirs[k]).canonical_path == path
}

/// The position of the file row with the path `path`.
pub open spec fn file_position(files: Seq<FileRowView>, path: Seq<char>) -> int {
    choose|k: int| 0 <= k < files.len() && (#[trigger] files[k]).canonical_path == path
}

/// The identifier that the next new row gets: one more than the largest in use.
pub open spec fn next_id(ids: Seq<i64>) -> int {
    max_id(ids) + 1
}

/// The directory row with the path `path`, where there is one.
pub open spec fn directory_at(dirs: Seq<DirectoryRowView>, path: Seq<char>) -> Option<
    DirectoryRowView,
> {
    if has_directory_path(dirs, path) {
        Some(dirs[directory_position(dirs, path)])
    } else {
        None
    }
}

/// The directories after `path` was recorded: unchanged where a row has that
/// path, and with a new, never scanned row at the end otherwise.
pub open spec fn with_directory(dirs: Seq<DirectoryRowView>, path: Seq<char>) -> Seq<
    DirectoryRowView,
> {
    if has_directory_path(dirs, path) {
        dirs
    } else {
        dirs.push(
            DirectoryRowView {
                id: next_id(directory_ids(dirs)) as i64,
                canonical_path: path,
                last_scanned: None,
            },
        )
    }
}

/// The row `d` with the scan time `timestamp`, where its identifier is `id`.
pub open spec fn mark_scanned(id: i64, timestamp: i64) -> spec_fn(DirectoryRowView) -> DirectoryRowView {
    |d: DirectoryRowView|
        if d.id == id {
            DirectoryRowView { last_scanned: Some(timestamp), ..d }
        } else {
            d
        }
}

/// The index without the tree of `root`: its directory rows and their files.
pub open spec fn without_tree(v: DbView, root: Seq<char>) -> DbView {
    DbView {
        directories: v.directories.filter(outside_tree(root)),
        files: v.files.filter(file_outside_tree(v.directories, root)),
        rules: v.rules,
    }
}

/// Another file of the directory has the name, under another path.
pub open spec fn name_taken(
    files: Seq<FileRowView>,
    directory_id: i64,
    name: Seq<char>,
    path: Seq<char>,
) -> bool {
    exists|k: int|
        0 <= k < files.len() && (#[trigger] files[k]).directory_id == directory_id
            && files[k].name == name && files[k].canonical_path != path
}

/// Why the index refuses to record the file, if it does.
pub open spec fn upsert_file_refusal(
    v: DbView,
    directory_id: i64,
    name: Seq<char>,
    path: Seq<char>,
) -> Option<StoreError> {
    if !has_directory(v.directories, directory_id) {
        Some(StoreError::UnknownDirectory)
    } else if name_taken(v.files, directory_id, name, path) {
        Some(StoreError::DuplicateName)
    } else if !has_file_path(v.files, path) && next_id(file_ids(v.files)) > i64::MAX {
        Some(StoreError::IdExhausted)
    } else {
        None
    }
}

/// The identifier under which the file with the path `path` is recorded.
pub open spec fn upserted_file_id(files: Seq<FileRowView>, path: Seq<char>) -> int {
    if has_file_path(files, path) {
        files[file_position(files, path)].id as int
    } else {
        next_id(file_ids(files))
    }
}

/// The files after `row` was recorded, whatever identifier `row` holds: where a
/// row has its path, that row keeps its identifier and its place and takes
/// every other field from `row`; otherwise `row` is added at the end under the
/// next identifier.
pub open spec fn with_file(files: Seq<FileRowView>, row: FileRowView) -> Seq<FileRowView> {
    if has_file_path(files, row.canonical_path) {
        let k = file_position(files, row.canonical_path);
        files.update(k, FileRowView { id: files[k].id, ..row })
    } else {
        files.push(FileRowView { id: next_id(file_ids(files)) as i64, ..row })
    }
}

/// The row `f` with the fast hash `digest` and no full hash, where its
/// identifier is `id`.
pub open spec fn set_fast_hash(id: i64, digest: Seq<char>) -> spec_fn(FileRowView) -> FileRowView {
    |f: FileRowView|
        if f.id == id {
            FileRowView { fast_hash: Some(digest), full_hash: None, ..f }
        } else {
            f
        }
}

/// The row `f` with the full hash `digest`, where its identifier is `id`.
pub open spec fn set_full_hash(id: i64, digest: Seq<char>) -> spec_fn(FileRowView) -> FileRowView {
    |f: FileRowView|
        if f.id == id {
            FileRowView { full_hash: Some(digest), ..f }
        } else {
            f
        }
}

/// `after` is `before` with a new rule of the given pattern and priority,
/// placed behind every rule of the same or a higher priority.
pub open spec fn rule_inserted(
    before: Seq<RuleRowView>,
    after: Seq<RuleRowView>,
    pattern: Seq<char>,
    priority: i64,
) -> bool {
    exists|k: int|
        0 <= k <= before.len() && #[trigger] before.insert(
            k,
            RuleRowView { id: next_id(rule_ids(before)) as i64, pattern, priority },
        ) == after && (forall|i: int| 0 <= i < k ==> (#[trigger] before[i]).priority >= priority)
            && (forall|i: int| k <= i < before.len() ==> (#[trigger] before[i]).priority < priority)
}

// ----------------------------------------------------------------------------
// Selections keep order and bring nothing in
// ----------------------------------------------------------------------------

/// Nothing is selected from an empty sequence.
pub proof fn lemma_filter_empty<A>(s: Seq<A>, pred: spec_fn(A) -> bool)
    requires
        s.len() == 0,
    ensures
        s.filter(pred) == Seq::<A>::empty(),
{
    reveal(Seq::filter);
    assert(s =~= Seq::<A>::empty());
}

/// Selecting from one element more selects that element or leaves it out.
pub proof fn lemma_filter_step<A>(s: Seq<A>, pred: spec_fn(A) -> bool, i: int)
    requires
        0 <= i < s.len(),
    ensures
        s.take(i + 1).filter(pred) == if pred(s[i]) {
            s.take(i).filter(pred).push(s[i])
        } else {
            s.take(i).filter(pred)
        },
{
    s.lemma_take_succ_push(i);
    s.take(i).lemma_filter_push(s[i], pred);
}

/// The positions of the elements that meet the predicate, in rising order.
pub open spec fn kept_positions<A>(s: Seq<A>, pred: spec_fn(A) -> bool) -> Seq<int>
    decreases s.len(),
{
    if s.len() == 0 {
        Seq::<int>::empty()
    } else if pred(s.last()) {
        kept_positions(s.drop_last(), pred).push(s.len() - 1)
    } else {
        kept_positions(s.drop_last(), pred)
    }
}

/// The selection holds the elements at the kept positions, which rise, are
/// positions of elements that meet the predicate, and leave no such element out.
pub proof fn lemma_filter_order<A>(s: Seq<A>, pred: spec_fn(A) -> bool)
    ensures
        s.filter(pred).len() == kept_positions(s, pred).len(),
        s.filter(pred).len() <= s.len(),
        forall|i: int|
            0 <= i < s.filter(pred).len() ==> 0 <= (#[trigger] kept_positions(s, pred)[i]) < s.len()
                && s.filter(pred)[i] == s[kept_positions(s, pred)[i]] && pred(
                s[kept_positions(s, pred)[i]],
            ),
        forall|i: int, j: int|
            0 <= i < j < s.filter(pred).len() ==> (#[trigger] kept_positions(s, pred)[i]) < (
            #[trigger] kept_positions(s, pred)[j]),
        forall|a: int|
            0 <= a < s.len() && pred(#[trigger] s[a]) ==> kept_positions(s, pred).contains(a),
    decreases s.len(),
{
    reveal(Seq::filter);
    let out = s.filter(pred);
    let pos = kept_positions(s, pred);
    if s.len() > 0 {
        let rest = s.drop_last();
        let sub = rest.filter(pred);
        let sub_pos = kept_positions(rest, pred);
        lemma_filter_order(rest, pred);
        assert forall|i: int| 0 <= i < out.len() implies 0 <= (#[trigger] pos[i]) < s.len()
            && out[i] == s[pos[i]] && pred(s[pos[i]]) by {
            if i < sub.len() {
                assert(pos[i] == sub_pos[i]);
                assert(rest[sub_pos[i]] == s[sub_pos[i]]);
            }
        }
        assert forall|i: int, j: int| 0 <= i < j < out.len() implies (#[trigger] pos[i]) < (
        #[trigger] pos[j]) by {
            assert(pos[i] == sub_pos[i]);
            if j < sub.len() {
                assert(pos[j] == sub_pos[j]);
            }
        }
        assert forall|a: int| 0 <= a < s.len() && pred(#[trigger] s[a]) implies pos.contains(
            a,
        ) by {
            if a < rest.len() {
                assert(rest[a] == s[a]);
                assert(sub_pos.contains(a));
                let i = choose|i: int| 0 <= i < sub_pos.len() && sub_pos[i] == a;
                assert(pos[i] == a);
            } else {
                assert(pos[pos.len() - 1] == a);
            }
        }
    }
}

/// A selection of well-formed directories is well-formed.
pub proof fn lemma_filter_directories_wf(
    dirs: Seq<DirectoryRowView>,
    pred: spec_fn(DirectoryRowView) -> bool,
)
    requires
        directories_wf(dirs),
    ensures
        directories_wf(dirs.filter(pred)),
{
    lemma_filter_order(dirs, pred);
    let out = dirs.filter(pred);
    let pos = kept_positions(dirs, pred);
    assert forall|i: int, j: int| 0 <= i < j < out.len() implies (#[trigger] out[i]).id != (
    #[trigger] out[j]).id && out[i].canonical_path != out[j].canonical_path by {
        assert(pos[i] < pos[j]);
        assert(dirs[pos[i]].id != dirs[pos[j]].id);
    }
}

/// A selection of well-formed files is well-formed, under the same directories.
pub proof fn lemma_filter_files_wf(
    files: Seq<FileRowView>,
    dirs: Seq<DirectoryRowView>,
    pred: spec_fn(FileRowView) -> bool,
)
    requires
        files_wf(files, dirs),
    ensures
        files_wf(files.filter(pred), dirs),
{
    lemma_filter_order(files, pred);
    let out = files.filter(pred);
    let pos = kept_positions(files, pred);
    assert forall|i: int, j: int| 0 <= i < j < out.len() implies (#[trigger] out[i]).id != (
    #[trigger] out[j]).id && out[i].canonical_path != out[j].canonical_path && !(
    out[i].directory_id == out[j].directory_id && out[i].name == out[j].name) by {
        assert(pos[i] < pos[j]);
        assert(files[pos[i]].id != files[pos[j]].id);
    }
    assert forall|i: int| 0 <= i < out.len() implies has_directory(
        dirs,
        (#[trigger] out[i]).directory_id,
    ) by {
        assert(has_directory(dirs, files[pos[i]].directory_id));
    }
}

/// Where every element meets the predicate, the selection is the sequence.
pub proof fn lemma_filter_all<A>(s: Seq<A>, pred: spec_fn(A) -> bool)
    requires
        forall|k: int| 0 <= k < s.len() ==> pred(#[trigger] s[k]),
    ensures
        s.filter(pred) == s,
    decreases s.len(),
{
    reveal(Seq::filter);
    if s.len() > 0 {
        let rest = s.drop_last();
        assert forall|k: int| 0 <= k < rest.len() implies pred(#[trigger] rest[k]) by {
            assert(rest[k] == s[k]);
        }
        lemma_filter_all(rest, pred);
        assert(rest.push(s.last()) =~= s);
    }
}

/// `first_with_hash` is a position of the sequence or its length; the row
/// there has the hash, and no row before it has.
pub proof fn lemma_first_with_hash(files: Seq<FileRowView>, digest: Seq<char>)
    ensures
        0 <= first_with_hash(files, digest) <= files.len(),
        first_with_hash(files, digest) < files.len() ==> files[first_with_hash(
            files,
            digest,
        )].full_hash == Some(digest),
        forall|k: int|
            0 <= k < first_with_hash(files, digest) ==> (#[trigger] files[k]).full_hash != Some(
                digest,
            ),
    decreases files.len(),
{
    if files.len() > 0 && files.first().full_hash != Some(digest) {
        let rest = files.drop_first();
        lemma_first_with_hash(rest, digest);
        let f = first_with_hash(rest, digest);
        assert forall|k: int| 0 <= k < f + 1 implies (#[trigger] files[k]).full_hash != Some(
            digest,
        ) by {
            if k > 0 {
                assert(rest[k - 1] == files[k]);
            }
        }
        if f < rest.len() {
            assert(rest[f] == files[f + 1]);
        }
    }
}

/// The first row with a hash is the row that has it and that no row with it
/// precedes.
pub proof fn lemma_first_with_hash_is(files: Seq<FileRowView>, digest: Seq<char>, at: int)
    requires
        0 <= at < files.len(),
        files[at].full_hash == Some(digest),
        forall|k: int| 0 <= k < at ==> (#[trigger] files[k]).full_hash != Some(digest),
    ensures
        first_with_hash(files, digest) == at,
{
    lemma_first_with_hash(files, digest);
}

/// Predicates that agree on the elements of a sequence select the same.
pub proof fn lemma_filter_congruence<A>(s: Seq<A>, p: spec_fn(A) -> bool, q: spec_fn(A) -> bool)
    requires
        forall|k: int| 0 <= k < s.len() ==> p(#[trigger] s[k]) == q(s[k]),
    ensures
        s.filter(p) == s.filter(q),
    decreases s.len(),
{
    reveal(Seq::filter);
    if s.len() > 0 {
        let rest = s.drop_last();
        assert forall|k: int| 0 <= k < rest.len() implies p(#[trigger] rest[k]) == q(rest[k]) by {
            assert(rest[k] == s[k]);
        }
        lemma_filter_congruence(rest, p, q);
        assert(p(s[s.len() - 1]) == q(s[s.len() - 1]));
    }
}

/// Selecting by `p` and then by `q` selects by both.
pub proof fn lemma_filter_then<A>(
    s: Seq<A>,
    p: spec_fn(A) -> bool,
    q: spec_fn(A) -> bool,
    both: spec_fn(A) -> bool,
)
    requires
        forall|k: int| 0 <= k < s.len() ==> both(#[trigger] s[k]) == (p(s[k]) && q(s[k])),
    ensures
        s.filter(p).filter(q) == s.filter(both),
    decreases s.len(),
{
    reveal(Seq::filter);
    if s.len() > 0 {
        let rest = s.drop_last();
        let last = s.last();
        assert forall|k: int| 0 <= k < rest.len() implies both(#[trigger] rest[k]) == (p(rest[k])
            && q(rest[k])) by {
            assert(rest[k] == s[k]);
        }
        lemma_filter_then(rest, p, q, both);
        assert(both(s[s.len() - 1]) == (p(last) && q(last)));
        if p(last) {
            rest.filter(p).lemma_filter_push(last, q);
        }
    } else {
        lemma_filter_empty(s.filter(p), q);
    }
}

/// A row of a well-formed table is the only one with its identifier.
pub proof fn lemma_file_id_unique(files: Seq<FileRowView>, dirs: Seq<DirectoryRowView>, a: int, b: int)
    requires
        files_wf(files, dirs),
        0 <= a < files.len(),
        0 <= b < files.len(),
        files[a].id == files[b].id,
    ensures
        a == b,
{
    if a < b {
        assert(files[a].id != files[b].id);
    } else if b < a {
        assert(files[b].id != files[a].id);
    }
}

/// A selection of rows whose hashes are consistent has consistent hashes.
pub proof fn lemma_filter_consistent(files: Seq<FileRowView>, pred: spec_fn(FileRowView) -> bool)
    requires
        hashes_consistent(files),
    ensures
        hashes_consistent(files.filter(pred)),
{
    lemma_filter_order(files, pred);
    let out = files.filter(pred);
    let pos = kept_positions(files, pred);
    assert forall|k: int| 0 <= k < out.len() && (#[trigger] out[k]).full_hash is Some implies
        out[k].fast_hash is Some by {
        assert(out[k] == files[pos[k]]);
    }
}

/// A predicate that holds of fewer elements selects no more.
pub proof fn lemma_filter_no_more<A>(s: Seq<A>, p: spec_fn(A) -> bool, q: spec_fn(A) -> bool)
    requires
        forall|k: int| 0 <= k < s.len() && p(#[trigger] s[k]) ==> q(s[k]),
    ensures
        s.filter(p).len() <= s.filter(q).len(),
    decreases s.len(),
{
    reveal(Seq::filter);
    if s.len() > 0 {
        let rest = s.drop_last();
        assert forall|k: int| 0 <= k < rest.len() && p(#[trigger] rest[k]) implies q(rest[k]) by {
            assert(rest[k] == s[k]);
        }
        lemma_filter_no_more(rest, p, q);
        assert(p(s[s.len() - 1]) ==> q(s[s.len() - 1]));
    }
}

/// A predicate that holds of fewer elements, and not of one of which the
/// other holds, selects fewer.
pub proof fn lemma_filter_fewer<A>(
    s: Seq<A>,
    p: spec_fn(A) -> bool,
    q: spec_fn(A) -> bool,
    at: int,
)
    requires
        forall|k: int| 0 <= k < s.len() && p(#[trigger] s[k]) ==> q(s[k]),
        0 <= at < s.len(),
        q(s[at]),
        !p(s[at]),
    ensures
        s.filter(p).len() < s.filter(q).len(),
    decreases s.len(),
{
    reveal(Seq::filter);
    let rest = s.drop_last();
    assert forall|k: int| 0 <= k < rest.len() && p(#[trigger] rest[k]) implies q(rest[k]) by {
        assert(rest[k] == s[k]);
    }
    if at == s.len() - 1 {
        lemma_filter_no_more(rest, p, q);
    } else {
        assert(rest[at] == s[at]);
        lemma_filter_fewer(rest, p, q, at);
        assert(p(s[s.len() - 1]) ==> q(s[s.len() - 1]));
    }
}

} // verus!
