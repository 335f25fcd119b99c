//! What holds of the index and of the steps of a scan, whatever the inputs.

use vstd::prelude::*;
use crate::model::{
    candidate_in, files_wf, groups_of, hashes_consistent, is_shared_hash, kept_positions,
    lemma_file_id_unique, lemma_filter_order, needs_full_hash, shares_fast_hash, with_full_hash,
};
use crate::remove::{
    lemma_score_is_highest, rule_matches, score_of,
    auto_resolved, decided, group_wf, has_single_best, scores_of, single_best, without_removed,
    FileAction, GroupStateView, RemovalView,
};
use crate::paths::{in_tree, is_descendant};
use crate::model::{
    has_directory_path, set_fast_hash, set_full_hash, with_directory, with_file,
};
use crate::scan::is_hidden_name;
use crate::model::upsert_file_refusal;
use crate::scanner::{paired, pending_row, PendingFileView};
use crate::rows::{DirectoryRowView, DuplicateGroupView, FileRowView, RuleRowView};
use crate::model::{in_directory, lemma_filter_all, store_wf, DbView, StoreError};
use crate::scanner::{
    as_pending, digests_follow_fast_hashes, gone_child, gone_roots, is_gone, is_unchanged,
    lemma_full_hashes_keep_rows, not_gone_from, reconciled, recorded, with_full_hashes,
    without_trees, FullDigestView, SeenFileView,
};

verus! {

/// Two different rows of the index stand in one duplicate group exactly when
/// both have a full hash and it is the same.
pub proof fn law_same_group_iff_same_full_hash(
    files: Seq<FileRowView>,
    groups: Seq<DuplicateGroupView>,
    a: int,
    b: int,
)
    requires
        groups_of(files, groups),
        0 <= a < files.len(),
        0 <= b < files.len(),
        a != b,
    ensures
        (exists|k: int|
            0 <= k < groups.len() && (#[trigger] groups[k]).files.contains(files[a])
                && groups[k].files.contains(files[b])) <==> (files[a].full_hash is Some
            && files[a].full_hash == files[b].full_hash),
{
    if exists|k: int|
        0 <= k < groups.len() && (#[trigger] groups[k]).files.contains(files[a])
            && groups[k].files.contains(files[b]) {
        let k = choose|k: int|
            0 <= k < groups.len() && (#[trigger] groups[k]).files.contains(files[a])
                && groups[k].files.contains(files[b]);
        let pred = with_full_hash(groups[k].full_hash);
        let members = files.filter(pred);
        lemma_filter_order(files, pred);
        let i = choose|i: int| 0 <= i < members.len() && members[i] == files[a];
        let j = choose|j: int| 0 <= j < members.len() && members[j] == files[b];
        assert(pred(files[kept_positions(files, pred)[i]]));
        assert(pred(files[kept_positions(files, pred)[j]]));
    }
    if files[a].full_hash is Some && files[a].full_hash == files[b].full_hash {
        let digest = files[a].full_hash->Some_0;
        if a < b {
            assert(files[a].full_hash == Some(digest) && files[b].full_hash == Some(digest));
        } else {
            assert(files[b].full_hash == Some(digest) && files[a].full_hash == Some(digest));
        }
        assert(is_shared_hash(files, digest));
        let k = choose|k: int| 0 <= k < groups.len() && (#[trigger] groups[k]).full_hash == digest;
        let pred = with_full_hash(digest);
        lemma_filter_order(files, pred);
        let pos = kept_positions(files, pred);
        assert(pred(files[a]) && pred(files[b]));
        assert(pos.contains(a) && pos.contains(b));
        let i = choose|i: int| 0 <= i < pos.len() && pos[i] == a;
        let j = choose|j: int| 0 <= j < pos.len() && pos[j] == b;
        assert(files.filter(pred)[i] == files[a]);
        assert(files.filter(pred)[j] == files[b]);
        assert(groups[k].files.contains(files[a]) && groups[k].files.contains(files[b]));
    }
}

/// Every duplicate group holds two files at least.
pub proof fn law_groups_hold_two_files(
    files: Seq<FileRowView>,
    groups: Seq<DuplicateGroupView>,
    k: int,
)
    requires
        groups_of(files, groups),
        0 <= k < groups.len(),
    ensures
        groups[k].files.len() >= 2,
{
    let digest = groups[k].full_hash;
    let pred = with_full_hash(digest);
    lemma_filter_order(files, pred);
    let pos = kept_positions(files, pred);
    let (i, j) = choose|i: int, j: int|
        0 <= i < j < files.len() && (#[trigger] files[i]).full_hash == Some(digest) && (
        #[trigger] files[j]).full_hash == Some(digest);
    assert(pred(files[i]) && pred(files[j]));
    assert(pos.contains(i) && pos.contains(j));
    let a = choose|a: int| 0 <= a < pos.len() && pos[a] == i;
    let b = choose|b: int| 0 <= b < pos.len() && pos[b] == j;
    assert(a != b);
}

/// Recording a directory twice is recording it once.
pub proof fn law_recording_a_directory_is_idempotent(dirs: Seq<DirectoryRowView>, path: Seq<char>)
    ensures
        with_directory(with_directory(dirs, path), path) == with_directory(dirs, path),
{
    let once = with_directory(dirs, path);
    if !has_directory_path(dirs, path) {
        assert(once[once.len() - 1].canonical_path == path);
    }
    assert(has_directory_path(once, path));
}

/// The rules decide a group of two files or more that was not decided
/// exactly when one file scores above every other.
pub proof fn law_rules_decide_iff_single_best(g: GroupStateView, rules: Seq<RuleRowView>)
    requires
        group_wf(g),
        g.files.len() >= 2,
        !decided(g.actions),
    ensures
        decided(auto_resolved(g, rules).actions) <==> has_single_best(scores_of(rules, g.files)),
{
    let scores = scores_of(rules, g.files);
    if has_single_best(scores) {
        let at = single_best(scores);
        let actions = auto_resolved(g, rules).actions;
        let other = if at == 0 {
            1int
        } else {
            0int
        };
        assert(actions[at] == FileAction::Keep);
        assert(actions[other] == FileAction::Delete);
    }
}

/// What the rules make of a group depends on the rules and the files alone:
/// the same rules and the same files give the same actions.
pub proof fn law_rules_are_deterministic(
    g: GroupStateView,
    h: GroupStateView,
    rules: Seq<RuleRowView>,
)
    requires
        g.files == h.files,
        g.actions == h.actions,
    ensures
        auto_resolved(g, rules).actions == auto_resolved(h, rules).actions,
{
}

/// The score of a path depends on the set of the rules, not on their order
/// nor on how often a rule occurs.
pub proof fn law_score_depends_on_the_set_of_rules(
    first: Seq<RuleRowView>,
    second: Seq<RuleRowView>,
    path: Seq<char>,
)
    requires
        forall|r: RuleRowView| first.contains(r) <==> second.contains(r),
    ensures
        score_of(first, path) == score_of(second, path),
{
    lemma_score_is_highest(first, path);
    lemma_score_is_highest(second, path);
    lemma_best_is_in_both(first, second, path);
    lemma_best_is_in_both(second, first, path);
}

/// The score under rules that all occur among other rules is no higher than
/// the score under those.
proof fn lemma_best_is_in_both(first: Seq<RuleRowView>, second: Seq<RuleRowView>, path: Seq<char>)
    requires
        forall|r: RuleRowView| first.contains(r) ==> second.contains(r),
    ensures
        score_of(first, path) is Some ==> score_of(second, path) is Some && score_of(
            first,
            path,
        )->Some_0 <= score_of(second, path)->Some_0,
{
    lemma_score_is_highest(first, path);
    lemma_score_is_highest(second, path);
    if score_of(first, path) is Some {
        let k = choose|k: int|
            0 <= k < first.len() && rule_matches(#[trigger] first[k], path) && first[k].priority
                == score_of(first, path)->Some_0;
        assert(first.contains(first[k]));
        assert(second.contains(first[k]));
        let j = choose|j: int| 0 <= j < second.len() && second[j] == first[k];
        assert(rule_matches(second[j], path));
    }
}

/// What the rules make of a group depends on the set of the rules alone.
pub proof fn law_rules_decide_by_their_set(
    g: GroupStateView,
    first: Seq<RuleRowView>,
    second: Seq<RuleRowView>,
)
    requires
        forall|r: RuleRowView| first.contains(r) <==> second.contains(r),
    ensures
        auto_resolved(g, first) == auto_resolved(g, second),
{
    assert forall|i: int| 0 <= i < g.files.len() implies scores_of(first, g.files)[i] == scores_of(
        second,
        g.files,
    )[i] by {
        law_score_depends_on_the_set_of_rules(first, second, g.files[i].canonical_path);
    }
    assert(scores_of(first, g.files) =~= scores_of(second, g.files));
}

/// Where nothing was removed from the file system, as in a dry run, the
/// index stays as it is.
pub proof fn law_nothing_removed_changes_nothing(files: Seq<FileRowView>, removals: Seq<RemovalView>)
    requires
        forall|k: int| 0 <= k < removals.len() ==> !(#[trigger] removals[k]).removed,
    ensures
        without_removed(files, removals) == files,
    decreases removals.len(),
{
    if removals.len() > 0 {
        assert forall|k: int| 0 <= k < removals.drop_last().len() implies !(
        #[trigger] removals.drop_last()[k]).removed by {
            assert(removals.drop_last()[k] == removals[k]);
        }
        law_nothing_removed_changes_nothing(files, removals.drop_last());
        assert(!removals[removals.len() - 1].removed);
    }
}

/// A new fast hash, which takes the full hash of its row away, keeps the
/// hashes consistent.
pub proof fn law_fast_hash_keeps_hashes_consistent(
    files: Seq<FileRowView>,
    id: i64,
    digest: Seq<char>,
)
    requires
        hashes_consistent(files),
    ensures
        hashes_consistent(files.map_values(set_fast_hash(id, digest))),
{
    let after = files.map_values(set_fast_hash(id, digest));
    assert forall|k: int| 0 <= k < after.len() && (#[trigger] after[k]).full_hash is Some implies
        after[k].fast_hash is Some by {
        assert(after[k] == set_fast_hash(id, digest)(files[k]));
    }
}

/// A full hash for a file that has a fast hash keeps the hashes consistent.
pub proof fn law_full_hash_keeps_hashes_consistent(
    files: Seq<FileRowView>,
    id: i64,
    digest: Seq<char>,
)
    requires
        hashes_consistent(files),
        forall|k: int| 0 <= k < files.len() && (#[trigger] files[k]).id == id ==> files[k].fast_hash is Some,
    ensures
        hashes_consistent(files.map_values(set_full_hash(id, digest))),
{
    let after = files.map_values(set_full_hash(id, digest));
    assert forall|k: int| 0 <= k < after.len() && (#[trigger] after[k]).full_hash is Some implies
        after[k].fast_hash is Some by {
        assert(after[k] == set_full_hash(id, digest)(files[k]));
    }
}

/// The full digests are those of the candidates of stage two, each of which
/// could be read.
pub open spec fn digests_cover_candidates(files: Seq<FileRowView>, digests: Seq<FullDigestView>) -> bool {
    let candidates = files.filter(candidate_in(files));
    &&& digests.len() == candidates.len()
    &&& forall|k: int|
        0 <= k < digests.len() ==> (#[trigger] digests[k]).id == candidates[k].id
            && digests[k].digest is Some
}

/// The full digests are of candidates of stage two only.
pub open spec fn digests_among_candidates(files: Seq<FileRowView>, digests: Seq<FullDigestView>) -> bool {
    forall|k: int|
        0 <= k < digests.len() ==> exists|c: int|
            0 <= c < files.len() && needs_full_hash(files, #[trigger] files[c]) && files[c].id == (
            #[trigger] digests[k]).id
}

/// Full hashes that are read for candidates of stage two are read for files
/// that have a fast hash: recording them keeps the hashes consistent.
pub proof fn law_candidates_have_fast_hashes(
    files: Seq<FileRowView>,
    dirs: Seq<DirectoryRowView>,
    digests: Seq<FullDigestView>,
)
    requires
        files_wf(files, dirs),
        hashes_consistent(files),
        digests_among_candidates(files, digests),
    ensures
        digests_follow_fast_hashes(files, digests),
        hashes_consistent(with_full_hashes(files, digests)),
{
    assert forall|k: int, j: int|
        0 <= k < files.len() && 0 <= j < digests.len() && (#[trigger] digests[j]).digest is Some && (
        #[trigger] files[k]).id == digests[j].id implies files[k].fast_hash is Some by {
        let c = choose|c: int|
            0 <= c < files.len() && needs_full_hash(files, #[trigger] files[c]) && files[c].id
                == digests[j].id;
        lemma_file_id_unique(files, dirs, k, c);
    }
    crate::scanner::lemma_full_hashes_consistent(files, digests);
}

/// Stage one is sound: a file whose size and fast hash no other row shares is
/// no candidate of stage two, and stage two leaves its row as it is, without
/// a full hash if it had none.
pub proof fn law_unique_fast_hash_is_not_read(
    files: Seq<FileRowView>,
    dirs: Seq<DirectoryRowView>,
    digests: Seq<FullDigestView>,
    at: int,
)
    requires
        files_wf(files, dirs),
        digests_among_candidates(files, digests),
        0 <= at < files.len(),
        !shares_fast_hash(files, files[at]),
    ensures
        !needs_full_hash(files, files[at]),
        !files.filter(candidate_in(files)).contains(files[at]),
        with_full_hashes(files, digests).len() == files.len(),
        with_full_hashes(files, digests)[at] == files[at],
    decreases digests.len(),
{
    let pred = candidate_in(files);
    lemma_filter_order(files, pred);
    if files.filter(pred).contains(files[at]) {
        let i = choose|i: int| 0 <= i < files.filter(pred).len() && files.filter(pred)[i] == files[at];
        assert(pred(files[kept_positions(files, pred)[i]]));
    }
    lemma_full_hashes_keep_rows(files, digests);
    if digests.len() > 0 {
        let rest = digests.drop_last();
        assert forall|k: int| 0 <= k < rest.len() implies exists|c: int|
            0 <= c < files.len() && needs_full_hash(files, #[trigger] files[c]) && files[c].id == (
            #[trigger] rest[k]).id by {
            assert(rest[k] == digests[k]);
        }
        law_unique_fast_hash_is_not_read(files, dirs, rest, at);
        lemma_full_hashes_keep_rows(files, rest);
        let last = digests[digests.len() - 1];
        let c = choose|c: int|
            0 <= c < files.len() && needs_full_hash(files, #[trigger] files[c]) && files[c].id
                == last.id;
        if files[at].id == last.id {
            lemma_file_id_unique(files, dirs, at, c);
        }
    }
}

/// A full hash that was read for the row at `at` stays on the row while the
/// rest of the digests are recorded.
proof fn lemma_read_digest_stays(files: Seq<FileRowView>, digests: Seq<FullDigestView>, at: int, j: int)
    requires
        0 <= at < files.len(),
        0 <= j < digests.len(),
        digests[j].id == files[at].id,
        digests[j].digest is Some,
    ensures
        with_full_hashes(files, digests).len() == files.len(),
        with_full_hashes(files, digests)[at].full_hash is Some,
    decreases digests.len(),
{
    lemma_full_hashes_keep_rows(files, digests);
    let rest = digests.drop_last();
    lemma_full_hashes_keep_rows(files, rest);
    if j < digests.len() - 1 {
        assert(rest[j] == digests[j]);
        lemma_read_digest_stays(files, rest, at, j);
    }
}

/// Recording full hashes takes no full hash away.
proof fn lemma_full_hash_stays(files: Seq<FileRowView>, digests: Seq<FullDigestView>, at: int)
    requires
        0 <= at < files.len(),
        files[at].full_hash is Some,
    ensures
        with_full_hashes(files, digests).len() == files.len(),
        with_full_hashes(files, digests)[at].full_hash is Some,
    decreases digests.len(),
{
    lemma_full_hashes_keep_rows(files, digests);
    if digests.len() > 0 {
        lemma_full_hashes_keep_rows(files, digests.drop_last());
        lemma_full_hash_stays(files, digests.drop_last(), at);
    }
}

/// Stage two is complete: of two rows with the same size above zero and the
/// same fast hash, both have a full hash once the full hashes of the
/// candidates were read and recorded.
pub proof fn law_shared_fast_hash_gets_full_hash(
    files: Seq<FileRowView>,
    dirs: Seq<DirectoryRowView>,
    digests: Seq<FullDigestView>,
    a: int,
    b: int,
)
    requires
        files_wf(files, dirs),
        digests_cover_candidates(files, digests),
        0 <= a < files.len(),
        0 <= b < files.len(),
        a != b,
        files[a].size == files[b].size,
        files[a].size > 0,
        files[a].fast_hash is Some,
        files[a].fast_hash == files[b].fast_hash,
    ensures
        with_full_hashes(files, digests).len() == files.len(),
        with_full_hashes(files, digests)[a].full_hash is Some,
        with_full_hashes(files, digests)[b].full_hash is Some,
{
    lemma_shared_row_gets_full_hash(files, dirs, digests, a, b);
    lemma_shared_row_gets_full_hash(files, dirs, digests, b, a);
}

proof fn lemma_shared_row_gets_full_hash(
    files: Seq<FileRowView>,
    dirs: Seq<DirectoryRowView>,
    digests: Seq<FullDigestView>,
    a: int,
    b: int,
)
    requires
        files_wf(files, dirs),
        digests_cover_candidates(files, digests),
        0 <= a < files.len(),
        0 <= b < files.len(),
        a != b,
        files[a].size == files[b].size,
        files[a].size > 0,
        files[a].fast_hash is Some,
        files[a].fast_hash == files[b].fast_hash,
    ensures
        with_full_hashes(files, digests).len() == files.len(),
        with_full_hashes(files, digests)[a].full_hash is Some,
{
    lemma_full_hashes_keep_rows(files, digests);
    if files[a].full_hash is None {
        if files[a].id == files[b].id {
            lemma_file_id_unique(files, dirs, a, b);
        }
        assert(files[b].id != files[a].id);
        assert(shares_fast_hash(files, files[a]));
        let pred = candidate_in(files);
        assert(pred(files[a]));
        lemma_filter_order(files, pred);
        let pos = kept_positions(files, pred);
        assert(pos.contains(a));
        let j = choose|j: int| 0 <= j < pos.len() && pos[j] == a;
        assert(files.filter(pred)[j] == files[a]);
        assert(digests[j].id == files[a].id);
        lemma_read_digest_stays(files, digests, a, j);
    } else {
        lemma_full_hash_stays(files, digests, a);
    }
}

/// The names of the seen files.
pub open spec fn seen_names(seen: Seq<SeenFileView>) -> Seq<Seq<char>> {
    seen.map_values(|f: SeenFileView| f.name)
}

/// A scan of a directory in which nothing has changed reads no file and
/// writes nothing but the time of the scan. Nothing has changed when every
/// file seen has the size and time of its row, no row of the directory is
/// of a file that has gone, and no subdirectory of the index has gone. Then
/// no file needs a fast hash, the rows stay as they are, and stage two has
/// the candidates that it had before the scan: none, where there were none.
pub proof fn law_unchanged_directory_is_not_touched(
    v: DbView,
    directory_id: i64,
    dir: Seq<char>,
    seen: Seq<SeenFileView>,
    subdirs: Seq<Seq<char>>,
    hidden: bool,
)
    requires
        store_wf(v),
        forall|i: int|
            0 <= i < seen.len() ==> (#[trigger] seen[i]).stat is Some && is_unchanged(
                v.files.filter(in_directory(directory_id)),
                seen[i].name,
                seen[i].stat->Some_0,
            ),
        forall|k: int|
            0 <= k < v.files.len() ==> !is_gone(
                directory_id,
                seen_names(seen),
                hidden,
                #[trigger] v.files[k],
            ),
        forall|k: int|
            0 <= k < v.directories.len() ==> !gone_child(dir, subdirs)(#[trigger] v.directories[k]),
    ensures
        seen.filter_map(as_pending(v.files.filter(in_directory(directory_id)))).len() == 0,
        reconciled(v, directory_id, dir, seen_names(seen), subdirs, hidden) == v,
        recorded(v, directory_id, Seq::empty()) == (v, None::<StoreError>),
        v.files.filter(candidate_in(v.files)).len() == 0 ==> with_full_hashes(
            v.files,
            Seq::empty(),
        ) == v.files,
{
    let known = v.files.filter(in_directory(directory_id));
    lemma_no_pending(seen, known, seen.len() as int);
    assert(seen.take(seen.len() as int) =~= seen);
    lemma_filter_all(v.files, not_gone_from(directory_id, seen_names(seen), hidden));
    let kids = v.directories.filter(gone_child(dir, subdirs));
    lemma_filter_order(v.directories, gone_child(dir, subdirs));
    if kids.len() > 0 {
        let at = kept_positions(v.directories, gone_child(dir, subdirs))[0];
        assert(gone_child(dir, subdirs)(v.directories[at]));
    }
    assert(gone_roots(v.directories, dir, subdirs) =~= Seq::<Seq<char>>::empty());
    assert(reconciled(v, directory_id, dir, seen_names(seen), subdirs, hidden) == v);
}

/// No file of the first `n` seen needs a fast hash where each is unchanged.
proof fn lemma_no_pending(seen: Seq<SeenFileView>, known: Seq<FileRowView>, n: int)
    requires
        0 <= n <= seen.len(),
        forall|i: int|
            0 <= i < seen.len() ==> (#[trigger] seen[i]).stat is Some && is_unchanged(
                known,
                seen[i].name,
                seen[i].stat->Some_0,
            ),
    ensures
        seen.take(n).filter_map(as_pending(known)).len() == 0,
    decreases n,
{
    if n > 0 {
        lemma_no_pending(seen, known, n - 1);
        crate::scan::lemma_filter_map_step(seen, as_pending(known), n - 1);
        assert(seen[n - 1].stat is Some);
    }
}

// ----------------------------------------------------------------------------
// After a scan the rows of a directory are the files found there
// ----------------------------------------------------------------------------

/// A row of `files` stands in the directory under the name.
pub open spec fn has_row_named(files: Seq<FileRowView>, directory_id: i64, name: Seq<char>) -> bool {
    exists|k: int|
        0 <= k < files.len() && (#[trigger] files[k]).directory_id == directory_id && files[k].name
            == name
}

/// A row of `files` stands in the directory under the name and the path.
pub open spec fn has_row_at(
    files: Seq<FileRowView>,
    directory_id: i64,
    name: Seq<char>,
    path: Seq<char>,
) -> bool {
    exists|k: int|
        0 <= k < files.len() && (#[trigger] files[k]).directory_id == directory_id && files[k].name
            == name && files[k].canonical_path == path
}

/// The seen file makes a pending file.
pub open spec fn makes_pending(known: Seq<FileRowView>) -> spec_fn(SeenFileView) -> bool {
    |f: SeenFileView| as_pending(known)(f) is Some
}

/// The pending files are those that the plan holds, each with the fast hash
/// that was read for it.
pub open spec fn pending_all_read(
    seen: Seq<SeenFileView>,
    known: Seq<FileRowView>,
    pending: Seq<PendingFileView>,
) -> bool {
    let plan = seen.filter_map(as_pending(known));
    &&& pending.len() == plan.len()
    &&& forall|j: int|
        0 <= j < pending.len() ==> (#[trigger] pending[j]).fast_hash is Some && pending[j].name
            == plan[j].name && pending[j].path == plan[j].path
}

/// What a map with gaps yields is what it yields of the elements that it
/// has a value for, at their positions.
proof fn lemma_filter_map_positions(seen: Seq<SeenFileView>, known: Seq<FileRowView>)
    ensures
        seen.filter_map(as_pending(known)).len() == kept_positions(seen, makes_pending(known)).len(),
        forall|j: int|
            0 <= j < seen.filter_map(as_pending(known)).len() ==> Some(
                #[trigger] seen.filter_map(as_pending(known))[j],
            ) == as_pending(known)(seen[kept_positions(seen, makes_pending(known))[j]]),
    decreases seen.len(),
{
    let f = as_pending(known);
    let p = makes_pending(known);
    if seen.len() > 0 {
        let rest = seen.drop_last();
        lemma_filter_map_positions(rest, known);
        lemma_filter_order(rest, p);
        let out = seen.filter_map(f);
        let pos = kept_positions(seen, p);
        assert forall|j: int| 0 <= j < out.len() implies Some(#[trigger] out[j]) == f(
            seen[pos[j]],
        ) by {
            if j < rest.filter_map(f).len() {
                assert(out[j] == rest.filter_map(f)[j]);
                assert(pos[j] == kept_positions(rest, p)[j]);
                assert(rest[kept_positions(rest, p)[j]] == seen[kept_positions(rest, p)[j]]);
            }
        }
    }
}

/// Taking trees out brings no row in.
proof fn lemma_without_trees_rows(v: DbView, roots: Seq<Seq<char>>)
    ensures
        forall|k: int|
            0 <= k < without_trees(v, roots).files.len() ==> v.files.contains(
                #[trigger] without_trees(v, roots).files[k],
            ),
        forall|k: int|
            0 <= k < without_trees(v, roots).directories.len() ==> v.directories.contains(
                #[trigger] without_trees(v, roots).directories[k],
            ),
    decreases roots.len(),
{
    if roots.len() > 0 {
        let before = without_trees(v, roots.drop_last());
        lemma_without_trees_rows(v, roots.drop_last());
        let after = without_trees(v, roots);
        let keep_file = crate::model::file_outside_tree(before.directories, roots.last());
        let keep_dir = crate::model::outside_tree(roots.last());
        lemma_filter_order(before.files, keep_file);
        lemma_filter_order(before.directories, keep_dir);
        assert forall|k: int| 0 <= k < after.files.len() implies v.files.contains(
            #[trigger] after.files[k],
        ) by {
            let at = kept_positions(before.files, keep_file)[k];
            assert(after.files[k] == before.files[at]);
        }
        assert forall|k: int| 0 <= k < after.directories.len() implies v.directories.contains(
            #[trigger] after.directories[k],
        ) by {
            let at = kept_positions(before.directories, keep_dir)[k];
            assert(after.directories[k] == before.directories[at]);
        }
    }
}

/// A file of a directory stays while trees of the directory's descendants
/// are taken out.
proof fn lemma_without_trees_keeps(
    v: DbView,
    roots: Seq<Seq<char>>,
    directory_id: i64,
    dir: Seq<char>,
    row: FileRowView,
)
    requires
        store_wf(v),
        v.files.contains(row),
        row.directory_id == directory_id,
        forall|k: int|
            0 <= k < v.directories.len() && (#[trigger] v.directories[k]).id == directory_id
                ==> v.directories[k].canonical_path == dir,
        forall|r: int| 0 <= r < roots.len() ==> is_descendant(#[trigger] roots[r], dir),
    ensures
        without_trees(v, roots).files.contains(row),
    decreases roots.len(),
{
    if roots.len() > 0 {
        let rest = roots.drop_last();
        assert forall|r: int| 0 <= r < rest.len() implies is_descendant(#[trigger] rest[r], dir) by {
            assert(rest[r] == roots[r]);
        }
        lemma_without_trees_keeps(v, rest, directory_id, dir, row);
        lemma_without_trees_rows(v, rest);
        let before = without_trees(v, rest);
        let root = roots.last();
        let keep_file = crate::model::file_outside_tree(before.directories, root);
        assert(is_descendant(roots[roots.len() - 1], dir));
        if crate::model::file_in_tree(before.directories, root, row) {
            let k = choose|k: int|
                0 <= k < before.directories.len() && (#[trigger] before.directories[k]).id
                    == row.directory_id && in_tree(before.directories[k].canonical_path, root);
            assert(v.directories.contains(before.directories[k]));
            let at = choose|at: int|
                0 <= at < v.directories.len() && v.directories[at] == before.directories[k];
            assert(v.directories[at].id == directory_id);
            assert(before.directories[k].canonical_path == dir);
            crate::paths::lemma_descendant_is_longer(root, dir);
            if dir != root {
                crate::paths::lemma_descendant_is_longer(dir, root);
            }
            assert(false);
        }
        lemma_filter_order(before.files, keep_file);
        let at = choose|at: int| 0 <= at < before.files.len() && before.files[at] == row;
        assert(keep_file(before.files[at]));
        assert(kept_positions(before.files, keep_file).contains(at));
        let q = choose|q: int|
            0 <= q < kept_positions(before.files, keep_file).len() && kept_positions(
                before.files,
                keep_file,
            )[q] == at;
        assert(before.files.filter(keep_file)[q] == row);
    }
}

/// An error that stopped the recording stops it for good.
proof fn lemma_recorded_error_stays(
    v: DbView,
    directory_id: i64,
    pending: Seq<PendingFileView>,
    n: int,
)
    requires
        0 <= n <= pending.len(),
        recorded(v, directory_id, pending).1 is None,
    ensures
        recorded(v, directory_id, pending.take(n)).1 is None,
    decreases pending.len() - n,
{
    if n < pending.len() {
        lemma_recorded_error_stays(v, directory_id, pending, n + 1);
        assert(pending.take(n + 1).drop_last() =~= pending.take(n));
    } else {
        assert(pending.take(n) =~= pending);
    }
}

/// Recording a file leaves the rows of other paths as they are, and leaves
/// a row of the file's directory, name and path.
proof fn lemma_with_file_rows(files: Seq<FileRowView>, row: FileRowView)
    ensures
        has_row_at(with_file(files, row), row.directory_id, row.name, row.canonical_path),
        forall|k: int|
            0 <= k < files.len() && (#[trigger] files[k]).canonical_path != row.canonical_path
                ==> with_file(files, row).contains(files[k]),
        forall|k: int|
            0 <= k < with_file(files, row).len() ==> files.contains(
                #[trigger] with_file(files, row)[k],
            ) || (with_file(files, row)[k].directory_id == row.directory_id && with_file(
                files,
                row,
            )[k].name == row.name && with_file(files, row)[k].canonical_path
                == row.canonical_path),
{
    let after = with_file(files, row);
    if crate::model::has_file_path(files, row.canonical_path) {
        let at = crate::model::file_position(files, row.canonical_path);
        assert(after[at].directory_id == row.directory_id);
        assert forall|k: int|
            0 <= k < files.len() && (#[trigger] files[k]).canonical_path
                != row.canonical_path implies after.contains(files[k]) by {
            assert(after[k] == files[k]);
        }
        assert forall|k: int| 0 <= k < after.len() implies files.contains(#[trigger] after[k]) || (
        after[k].directory_id == row.directory_id && after[k].name == row.name
            && after[k].canonical_path == row.canonical_path) by {
            if k != at {
                assert(after[k] == files[k]);
            }
        }
    } else {
        assert(after[files.len() as int].directory_id == row.directory_id);
        assert forall|k: int|
            0 <= k < files.len() && (#[trigger] files[k]).canonical_path
                != row.canonical_path implies after.contains(files[k]) by {
            assert(after[k] == files[k]);
        }
        assert forall|k: int| 0 <= k < after.len() implies files.contains(#[trigger] after[k]) || (
        after[k].directory_id == row.directory_id && after[k].name == row.name
            && after[k].canonical_path == row.canonical_path) by {
            if k < files.len() {
                assert(after[k] == files[k]);
            }
        }
    }
}

/// What a scan can rely on when it reads a directory that it can read in
/// full: the directory has its row, each file seen could be examined, no
/// two files seen have one path, and each row of the directory has the
/// path under which its name was seen.
pub open spec fn plain_listing(
    v: DbView,
    directory_id: i64,
    dir: Seq<char>,
    seen: Seq<SeenFileView>,
) -> bool {
    &&& store_wf(v)
    &&& forall|k: int|
        0 <= k < v.directories.len() && (#[trigger] v.directories[k]).id == directory_id
            ==> v.directories[k].canonical_path == dir
    &&& forall|i: int| 0 <= i < seen.len() ==> (#[trigger] seen[i]).stat is Some
    &&& forall|i: int, j: int|
        0 <= i < j < seen.len() ==> (#[trigger] seen[i]).path != (#[trigger] seen[j]).path
    &&& forall|k: int, i: int|
        0 <= k < v.files.len() && 0 <= i < seen.len() && (#[trigger] v.files[k]).directory_id
            == directory_id && v.files[k].name == (#[trigger] seen[i]).name
            ==> v.files[k].canonical_path == seen[i].path
}

/// The rows of the directory after the first `n` pending files were
/// recorded: each has a name that was seen, and each file seen that is
/// unchanged or among those `n` has its row.
proof fn lemma_recorded_rows(
    v: DbView,
    directory_id: i64,
    dir: Seq<char>,
    seen: Seq<SeenFileView>,
    subdirs: Seq<Seq<char>>,
    hidden: bool,
    pending: Seq<PendingFileView>,
    n: int,
)
    requires
        plain_listing(v, directory_id, dir, seen),
        pending_all_read(seen, v.files.filter(in_directory(directory_id)), pending),
        0 <= n <= pending.len(),
        recorded(
            reconciled(v, directory_id, dir, seen_names(seen), subdirs, hidden),
            directory_id,
            pending.take(n),
        ).1 is None,
    ensures
        ({
            let known = v.files.filter(in_directory(directory_id));
            let pos = kept_positions(seen, makes_pending(known));
            let files = recorded(
                reconciled(v, directory_id, dir, seen_names(seen), subdirs, hidden),
                directory_id,
                pending.take(n),
            ).0.files;
            &&& pos.len() == pending.len()
            &&& forall|k: int|
                0 <= k < files.len() && (#[trigger] files[k]).directory_id == directory_id && (
                hidden || !is_hidden_name(files[k].name)) ==> seen_names(seen).contains(
                    files[k].name,
                )
            &&& forall|i: int|
                0 <= i < seen.len() && !makes_pending(known)(#[trigger] seen[i]) ==> has_row_at(
                    files,
                    directory_id,
                    seen[i].name,
                    seen[i].path,
                )
            &&& forall|j: int|
                0 <= j < n ==> has_row_at(
                    files,
                    directory_id,
                    seen[#[trigger] pos[j]].name,
                    seen[pos[j]].path,
                )
        }),
    decreases n,
{
    let known = v.files.filter(in_directory(directory_id));
    let names = seen_names(seen);
    let needs = makes_pending(known);
    let pos = kept_positions(seen, needs);
    let v1 = reconciled(v, directory_id, dir, names, subdirs, hidden);
    let files = recorded(v1, directory_id, pending.take(n)).0.files;
    lemma_filter_map_positions(seen, known);
    lemma_filter_order(seen, needs);
    if n == 0 {
        assert(pending.take(0) =~= Seq::<PendingFileView>::empty());
        assert(files == v1.files);
        let kept = DbView { files: v.files.filter(not_gone_from(directory_id, names, hidden)), ..v };
        let roots = gone_roots(v.directories, dir, subdirs);
        lemma_without_trees_rows(kept, roots);
        lemma_filter_order(v.files, not_gone_from(directory_id, names, hidden));
        assert forall|k: int|
            0 <= k < files.len() && (#[trigger] files[k]).directory_id == directory_id && (hidden
                || !is_hidden_name(files[k].name)) implies names.contains(files[k].name) by {
            assert(kept.files.contains(files[k]));
            let q = choose|q: int| 0 <= q < kept.files.len() && kept.files[q] == files[k];
            let at = kept_positions(v.files, not_gone_from(directory_id, names, hidden))[q];
            assert(!is_gone(directory_id, names, hidden, v.files[at]));
        }
        lemma_filter_order(v.files, in_directory(directory_id));
        lemma_filter_order(v.directories, gone_child(dir, subdirs));
        assert forall|r: int| 0 <= r < roots.len() implies is_descendant(#[trigger] roots[r], dir) by {
            let at = kept_positions(v.directories, gone_child(dir, subdirs))[r];
            assert(gone_child(dir, subdirs)(v.directories[at]));
        }
        crate::model::lemma_filter_files_wf(
            v.files,
            v.directories,
            not_gone_from(directory_id, names, hidden),
        );
        assert forall|i: int|
            0 <= i < seen.len() && !needs(#[trigger] seen[i]) implies has_row_at(
            files,
            directory_id,
            seen[i].name,
            seen[i].path,
        ) by {
            assert(seen[i].stat is Some);
            assert(is_unchanged(known, seen[i].name, seen[i].stat->Some_0));
            let c = choose|c: int|
                0 <= c < known.len() && (#[trigger] known[c]).name == seen[i].name && known[c].size
                    == seen[i].stat->Some_0.size && known[c].modified_at
                    == seen[i].stat->Some_0.modified_at;
            let at = kept_positions(v.files, in_directory(directory_id))[c];
            let row = v.files[at];
            assert(row == known[c]);
            assert(row.directory_id == directory_id);
            assert(row.canonical_path == seen[i].path);
            assert(names[i] == seen[i].name);
            assert(!is_gone(directory_id, names, hidden, row));
            assert(kept_positions(v.files, not_gone_from(directory_id, names, hidden)).contains(at));
            let q = choose|q: int|
                0 <= q < kept.files.len() && kept_positions(
                    v.files,
                    not_gone_from(directory_id, names, hidden),
                )[q] == at;
            assert(kept.files[q] == row);
            lemma_without_trees_keeps(kept, roots, directory_id, dir, row);
            let z = choose|z: int| 0 <= z < files.len() && files[z] == row;
            assert(files[z].directory_id == directory_id);
        }
    } else {
        let shorter = pending.take(n - 1);
        assert(pending.take(n).drop_last() =~= shorter);
        assert(pending.take(n).last() == pending[n - 1]);
        let (before, error) = recorded(v1, directory_id, shorter);
        lemma_recorded_rows(v, directory_id, dir, seen, subdirs, hidden, pending, n - 1);
        let p = pending[n - 1];
        let row = pending_row(directory_id, p);
        assert(files == with_file(before.files, row));
        lemma_with_file_rows(before.files, row);
        let here = pos[n - 1];
        let plan = seen.filter_map(as_pending(known));
        assert(Some(plan[n - 1]) == as_pending(known)(seen[here]));
        assert(p.name == seen[here].name && p.path == seen[here].path);
        assert(names[here] == seen[here].name);
        assert forall|k: int|
            0 <= k < files.len() && (#[trigger] files[k]).directory_id == directory_id && (hidden
                || !is_hidden_name(files[k].name)) implies names.contains(files[k].name) by {
            if before.files.contains(files[k]) {
                let z = choose|z: int| 0 <= z < before.files.len() && before.files[z] == files[k];
                assert(before.files[z].directory_id == directory_id);
            }
        }
        assert forall|i: int|
            0 <= i < seen.len() && !needs(#[trigger] seen[i]) implies has_row_at(
            files,
            directory_id,
            seen[i].name,
            seen[i].path,
        ) by {
            assert(needs(seen[here]));
            assert(i != here);
            if i < here {
                assert(seen[i].path != seen[here].path);
            } else {
                assert(seen[here].path != seen[i].path);
            }
            let z = choose|z: int|
                0 <= z < before.files.len() && (#[trigger] before.files[z]).directory_id
                    == directory_id && before.files[z].name == seen[i].name
                    && before.files[z].canonical_path == seen[i].path;
            assert(files.contains(before.files[z]));
            let y = choose|y: int| 0 <= y < files.len() && files[y] == before.files[z];
            assert(files[y].directory_id == directory_id);
        }
        assert forall|j: int| 0 <= j < n implies has_row_at(
            files,
            directory_id,
            seen[#[trigger] pos[j]].name,
            seen[pos[j]].path,
        ) by {
            if j < n - 1 {
                assert(pos[j] < pos[n - 1]);
                assert(seen[pos[j]].path != seen[here].path);
                let z = choose|z: int|
                    0 <= z < before.files.len() && (#[trigger] before.files[z]).directory_id
                        == directory_id && before.files[z].name == seen[pos[j]].name
                        && before.files[z].canonical_path == seen[pos[j]].path;
                assert(files.contains(before.files[z]));
                let y = choose|y: int| 0 <= y < files.len() && files[y] == before.files[z];
                assert(files[y].directory_id == directory_id);
            }
        }
    }
}

/// After a scan the rows of a directory are the files found there: a name
/// that the scan had in sight has a row in the directory exactly when a
/// file of that name was seen. A scan that takes hidden files in has every
/// name in sight, another one every name that is not hidden. This holds
/// where each file seen could be examined and read, no two files seen have
/// one path, each row of the directory has the path under which its name
/// was seen, and the index refused no file. The full hashes that stage two
/// records change no name.
pub proof fn law_scanned_directory_holds_what_was_seen(
    v: DbView,
    directory_id: i64,
    dir: Seq<char>,
    seen: Seq<SeenFileView>,
    subdirs: Seq<Seq<char>>,
    hidden: bool,
    pending: Seq<PendingFileView>,
    digests: Seq<FullDigestView>,
    name: Seq<char>,
)
    requires
        plain_listing(v, directory_id, dir, seen),
        hidden || !is_hidden_name(name),
        pending_all_read(seen, v.files.filter(in_directory(directory_id)), pending),
        recorded(
            reconciled(v, directory_id, dir, seen_names(seen), subdirs, hidden),
            directory_id,
            pending,
        ).1 is None,
    ensures
        has_row_named(
            with_full_hashes(
                recorded(
                    reconciled(v, directory_id, dir, seen_names(seen), subdirs, hidden),
                    directory_id,
                    pending,
                ).0.files,
                digests,
            ),
            directory_id,
            name,
        ) <==> seen_names(seen).contains(name),
{
    let known = v.files.filter(in_directory(directory_id));
    let names = seen_names(seen);
    let needs = makes_pending(known);
    let pos = kept_positions(seen, needs);
    let v1 = reconciled(v, directory_id, dir, names, subdirs, hidden);
    let files = recorded(v1, directory_id, pending).0.files;
    let hashed = with_full_hashes(files, digests);
    assert(pending.take(pending.len() as int) =~= pending);
    lemma_recorded_rows(v, directory_id, dir, seen, subdirs, hidden, pending, pending.len() as int);
    lemma_full_hashes_keep_rows(files, digests);
    lemma_filter_order(seen, needs);
    if has_row_named(hashed, directory_id, name) {
        let k = choose|k: int|
            0 <= k < hashed.len() && (#[trigger] hashed[k]).directory_id == directory_id
                && hashed[k].name == name;
        assert(files[k].directory_id == directory_id && files[k].name == name);
    }
    if names.contains(name) {
        let i = choose|i: int| 0 <= i < names.len() && names[i] == name;
        assert(seen[i].name == name);
        if needs(seen[i]) {
            assert(pos.contains(i));
            let j = choose|j: int| 0 <= j < pos.len() && pos[j] == i;
            assert(has_row_at(files, directory_id, seen[pos[j]].name, seen[pos[j]].path));
        }
        assert(has_row_at(files, directory_id, seen[i].name, seen[i].path));
        let z = choose|z: int|
            0 <= z < files.len() && (#[trigger] files[z]).directory_id == directory_id
                && files[z].name == seen[i].name && files[z].canonical_path == seen[i].path;
        assert(hashed[z].directory_id == directory_id && hashed[z].name == name);
    }
}

/// Once the full hashes of the candidates were read and recorded, stage two
/// has nothing left to read.
pub proof fn law_stage_two_leaves_no_candidates(
    files: Seq<FileRowView>,
    dirs: Seq<DirectoryRowView>,
    digests: Seq<FullDigestView>,
)
    requires
        files_wf(files, dirs),
        digests_cover_candidates(files, digests),
    ensures
        with_full_hashes(files, digests).filter(
            candidate_in(with_full_hashes(files, digests)),
        ).len() == 0,
{
    let after = with_full_hashes(files, digests);
    let pred = candidate_in(after);
    lemma_full_hashes_keep_rows(files, digests);
    lemma_filter_order(after, pred);
    if after.filter(pred).len() > 0 {
        let at = kept_positions(after, pred)[0];
        assert(needs_full_hash(after, after[at]));
        let other = choose|k: int|
            0 <= k < after.len() && (#[trigger] after[k]).id != after[at].id && after[k].size
                == after[at].size && after[k].fast_hash == after[at].fast_hash;
        assert(files[other].id != files[at].id);
        law_shared_fast_hash_gets_full_hash(files, dirs, digests, at, other);
        assert(false);
    }
}

// ----------------------------------------------------------------------------
// A whole scan of a directory keeps the index well-formed and its hashes
// consistent
// ----------------------------------------------------------------------------

/// Recording a file that the index does not refuse keeps the files
/// well-formed.
pub proof fn lemma_with_file_wf(v: DbView, row: FileRowView)
    requires
        store_wf(v),
        upsert_file_refusal(v, row.directory_id, row.name, row.canonical_path) is None,
    ensures
        files_wf(with_file(v.files, row), v.directories),
{
    let files = v.files;
    let after = with_file(files, row);
    if crate::model::has_file_path(files, row.canonical_path) {
        let at = crate::model::file_position(files, row.canonical_path);
        assert forall|i: int, j: int| 0 <= i < j < after.len() implies (#[trigger] after[i]).id != (
        #[trigger] after[j]).id && after[i].canonical_path != after[j].canonical_path && !(
        after[i].directory_id == after[j].directory_id && after[i].name == after[j].name) by {
            assert(files[i].id != files[j].id);
            if i != at {
                assert(after[i] == files[i]);
            }
            if j != at {
                assert(after[j] == files[j]);
            }
        }
        assert forall|i: int| 0 <= i < after.len() implies crate::model::has_directory(
            v.directories,
            (#[trigger] after[i]).directory_id,
        ) by {
            if i != at {
                assert(after[i] == files[i]);
            }
        }
    } else {
        crate::model::lemma_max_id_bounds(crate::model::file_ids(files));
        assert forall|k: int| 0 <= k < files.len() implies (#[trigger] files[k]).id
            < crate::model::next_id(crate::model::file_ids(files)) by {
            assert(crate::model::file_ids(files)[k] == files[k].id);
        }
        assert forall|i: int, j: int| 0 <= i < j < after.len() implies (#[trigger] after[i]).id != (
        #[trigger] after[j]).id && after[i].canonical_path != after[j].canonical_path && !(
        after[i].directory_id == after[j].directory_id && after[i].name == after[j].name) by {
            assert(after[i] == files[i]);
            if j < files.len() {
                assert(after[j] == files[j]);
            }
        }
        assert forall|i: int| 0 <= i < after.len() implies crate::model::has_directory(
            v.directories,
            (#[trigger] after[i]).directory_id,
        ) by {
            if i < files.len() {
                assert(after[i] == files[i]);
            }
        }
    }
}

/// Recording pending files keeps the index well-formed and its hashes
/// consistent, whether or not the index refuses one of them.
pub proof fn lemma_recorded_keeps_the_index(
    v: DbView,
    directory_id: i64,
    pending: Seq<PendingFileView>,
)
    requires
        store_wf(v),
    ensures
        store_wf(recorded(v, directory_id, pending).0),
        hashes_consistent(v.files) ==> hashes_consistent(
            recorded(v, directory_id, pending).0.files,
        ),
    decreases pending.len(),
{
    if pending.len() > 0 {
        lemma_recorded_keeps_the_index(v, directory_id, pending.drop_last());
        let (before, error) = recorded(v, directory_id, pending.drop_last());
        let p = pending.last();
        if error is None && p.fast_hash is Some && upsert_file_refusal(
            before,
            directory_id,
            p.name,
            p.path,
        ) is None {
            lemma_with_file_wf(before, pending_row(directory_id, p));
            if hashes_consistent(before.files) {
                crate::scanner::lemma_with_file_consistent(
                    before.files,
                    pending_row(directory_id, p),
                );
            }
        }
    }
}

/// Taking trees out keeps the index well-formed and its hashes consistent.
pub proof fn lemma_without_trees_keeps_the_index(v: DbView, roots: Seq<Seq<char>>)
    requires
        store_wf(v),
    ensures
        store_wf(without_trees(v, roots)),
        hashes_consistent(v.files) ==> hashes_consistent(without_trees(v, roots).files),
    decreases roots.len(),
{
    if roots.len() > 0 {
        lemma_without_trees_keeps_the_index(v, roots.drop_last());
        let before = without_trees(v, roots.drop_last());
        crate::db::lemma_without_tree_wf(before, roots.last());
        if hashes_consistent(before.files) {
            crate::model::lemma_filter_consistent(
                before.files,
                crate::model::file_outside_tree(before.directories, roots.last()),
            );
        }
    }
}

/// What a whole scan of one directory makes of the files of the index: the
/// rows are brought in line with what was found, the pending files are
/// recorded with their fast hashes, and the candidates of stage two get the
/// full hashes that were read of them.
pub open spec fn scanned_files(
    v: DbView,
    directory_id: i64,
    dir: Seq<char>,
    names: Seq<Seq<char>>,
    subdirs: Seq<Seq<char>>,
    hidden: bool,
    pending: Seq<PendingFileView>,
    reads: Seq<Option<Seq<char>>>,
) -> Seq<FileRowView> {
    let listed = recorded(
        reconciled(v, directory_id, dir, names, subdirs, hidden),
        directory_id,
        pending,
    ).0.files;
    with_full_hashes(listed, paired(listed.filter(candidate_in(listed)), reads))
}

/// A scan of a directory keeps the hashes consistent: where every file of
/// the index that had a full hash had a fast hash before, the same holds
/// after, whatever was found, whatever could be read, and whether or not
/// the index refused a file.
pub proof fn law_a_scan_keeps_hashes_consistent(
    v: DbView,
    directory_id: i64,
    dir: Seq<char>,
    names: Seq<Seq<char>>,
    subdirs: Seq<Seq<char>>,
    hidden: bool,
    pending: Seq<PendingFileView>,
    reads: Seq<Option<Seq<char>>>,
)
    requires
        store_wf(v),
        hashes_consistent(v.files),
    ensures
        hashes_consistent(
            scanned_files(v, directory_id, dir, names, subdirs, hidden, pending, reads),
        ),
{
    let kept = DbView { files: v.files.filter(not_gone_from(directory_id, names, hidden)), ..v };
    crate::model::lemma_filter_files_wf(
        v.files,
        v.directories,
        not_gone_from(directory_id, names, hidden),
    );
    crate::model::lemma_filter_consistent(v.files, not_gone_from(directory_id, names, hidden));
    lemma_without_trees_keeps_the_index(kept, gone_roots(v.directories, dir, subdirs));
    let v1 = reconciled(v, directory_id, dir, names, subdirs, hidden);
    lemma_recorded_keeps_the_index(v1, directory_id, pending);
    let v2 = recorded(v1, directory_id, pending).0;
    let files = v2.files;
    let rows = files.filter(candidate_in(files));
    let pairs = paired(rows, reads);
    lemma_filter_order(files, candidate_in(files));
    let pos = kept_positions(files, candidate_in(files));
    assert forall|k: int| 0 <= k < pairs.len() implies exists|c: int|
        0 <= c < files.len() && needs_full_hash(files, #[trigger] files[c]) && files[c].id == (
        #[trigger] pairs[k]).id by {
        assert(rows[k] == files[pos[k]]);
        assert(candidate_in(files)(files[pos[k]]));
    }
    law_candidates_have_fast_hashes(files, v2.directories, pairs);
}

} // verus!
