//! Choosing which copies of a duplicate go: the actions of a group, the
//! rules that decide a group by themselves, the keys that decide it by hand,
//! and what a decided group removes.

use vstd::prelude::*;
use crate::db::Db;
use crate::glob::{
    build_globset, glob_parses, glob_set_matches, glob_set_patterns, set_is_match, GlobError,
};
use crate::model::{
    hashes_consistent, next_id, not_file_path, rule_ids, rule_inserted, StoreError,
};
use crate::rows::{
    clone_files, file_views, rule_views, text_views, DuplicateGroup, FileRow, FileRowView, RuleRow,
    RuleRowView,
};
use crate::scan::globs_build;
use crate::text::{
    is_digit, parse_i64, parsed_i64, push_signed_decimal, signed_decimal, without_last,
    without_last_char,
};
use crate::tui::Key;

verus! {

/// What is to become of a file of a group.
#[derive(Debug, Clone, Copy, PartialEq, Eq, Structural)]
pub enum FileAction {
    Keep,
    Delete,
    Undecided,
}

/// Which field of a new rule is being typed.
#[derive(Debug, Clone, Copy, PartialEq, Eq, Structural)]
pub enum InputMode {
    RulePattern,
    RulePriority,
}

/// How the work on a group ended.
#[derive(Debug, Clone, Copy, PartialEq, Eq, Structural)]
pub enum GroupResult {
    /// The group is decided and its deletions are to be carried out.
    Confirm,
    /// The group is left as it is.
    Skip,
    /// The run ends here.
    Quit,
}

// ----------------------------------------------------------------------------
// Scores
// ----------------------------------------------------------------------------

/// A rule matches a path when its pattern is a glob of which a set can be
/// built, and that set matches the path.
pub open spec fn rule_matches(rule: RuleRowView, path: Seq<char>) -> bool {
    globs_build(seq![rule.pattern]) && glob_set_matches(seq![rule.pattern], path)
}

/// The larger of two scores, where no score is below every score.
pub open spec fn better(a: Option<i64>, b: Option<i64>) -> Option<i64> {
    match (a, b) {
        (Some(x), Some(y)) => if x >= y {
            a
        } else {
            b
        },
        (Some(_), None) => a,
        _ => b,
    }
}

/// The first score is below the second.
pub open spec fn below(a: Option<i64>, b: Option<i64>) -> bool {
    match (a, b) {
        (Some(x), Some(y)) => x < y,
        (None, Some(_)) => true,
        _ => false,
    }
}

/// The score of a path: the highest priority among the rules that match it,
/// and no score where none matches.
pub open spec fn score_of(rules: Seq<RuleRowView>, path: Seq<char>) -> Option<i64>
    decreases rules.len(),
{
    if rules.len() == 0 {
        None
    } else if rule_matches(rules.last(), path) {
        better(score_of(rules.drop_last(), path), Some(rules.last().priority))
    } else {
        score_of(rules.drop_last(), path)
    }
}

/// The scores of the files of a group.
pub open spec fn scores_of(rules: Seq<RuleRowView>, files: Seq<FileRowView>) -> Seq<Option<i64>> {
    files.map_values(|f: FileRowView| score_of(rules, f.canonical_path))
}

/// The score at `at` is above every other score.
pub open spec fn is_single_best(scores: Seq<Option<i64>>, at: int) -> bool {
    0 <= at < scores.len() && forall|j: int|
        0 <= j < scores.len() && j != at ==> below(#[trigger] scores[j], scores[at])
}

/// One score is above every other.
pub open spec fn has_single_best(scores: Seq<Option<i64>>) -> bool {
    exists|at: int| is_single_best(scores, at)
}

/// The score of a path is the priority of a rule that matches it and no rule
/// that matches it has a higher priority; it is absent exactly where no rule
/// matches.
pub proof fn lemma_score_is_highest(rules: Seq<RuleRowView>, path: Seq<char>)
    ensures
        score_of(rules, path) is None <==> forall|k: int|
            0 <= k < rules.len() ==> !rule_matches(#[trigger] rules[k], path),
        score_of(rules, path) is Some ==> exists|k: int|
            0 <= k < rules.len() && rule_matches(#[trigger] rules[k], path) && rules[k].priority
                == score_of(rules, path)->Some_0,
        forall|k: int|
            0 <= k < rules.len() && rule_matches(#[trigger] rules[k], path) ==> score_of(
                rules,
                path,
            ) is Some && rules[k].priority <= score_of(rules, path)->Some_0,
    decreases rules.len(),
{
    if rules.len() > 0 {
        let rest = rules.drop_last();
        let last = rules.last();
        lemma_score_is_highest(rest, path);
        assert forall|k: int| 0 <= k < rest.len() implies #[trigger] rest[k] == rules[k] by {}
        if score_of(rules, path) is Some {
            if rule_matches(last, path) && score_of(rules, path) == Some(last.priority) {
                assert(rule_matches(rules[rules.len() - 1], path));
            } else {
                let k = choose|k: int|
                    0 <= k < rest.len() && rule_matches(#[trigger] rest[k], path)
                        && rest[k].priority == score_of(rest, path)->Some_0;
                assert(rule_matches(rules[k], path));
            }
        }
        assert forall|k: int|
            0 <= k < rules.len() && rule_matches(#[trigger] rules[k], path) implies score_of(
            rules,
            path,
        ) is Some && rules[k].priority <= score_of(rules, path)->Some_0 by {
            if k < rest.len() {
                assert(rule_matches(rest[k], path));
            }
        }
        if score_of(rules, path) is None {
            assert forall|k: int| 0 <= k < rules.len() implies !rule_matches(
                #[trigger] rules[k],
                path,
            ) by {
                if k < rest.len() {
                    assert(rest[k] == rules[k]);
                }
            }
        }
    }
}

fn pick_better(a: Option<i64>, b: Option<i64>) -> (c: Option<i64>)
    ensures
        c == better(a, b),
{
    match a {
        Some(x) => match b {
            Some(y) => if x >= y {
                a
            } else {
                b
            },
            None => a,
        },
        None => b,
    }
}

fn is_below(a: Option<i64>, b: Option<i64>) -> (less: bool)
    ensures
        less == below(a, b),
{
    match b {
        Some(y) => match a {
            Some(x) => x < y,
            None => true,
        },
        None => false,
    }
}

/// The set is that of the pattern, or there is none because none can be
/// built of the pattern.
pub open spec fn is_set_of(set: Option<globset::GlobSet>, pattern: Seq<char>) -> bool {
    match set {
        Some(set) => globs_build(seq![pattern]) && glob_set_patterns(set) == seq![pattern],
        None => !globs_build(seq![pattern]),
    }
}

/// The glob set of each rule, and none for a rule of which no set can be built.
fn rule_sets(rules: &Vec<RuleRow>) -> (sets: Vec<Option<globset::GlobSet>>)
    ensures
        sets@.len() == rules@.len(),
        forall|k: int| 0 <= k < rules@.len() ==> is_set_of(#[trigger] sets@[k], rules@[k]@.pattern),
{
    let mut sets: Vec<Option<globset::GlobSet>> = Vec::new();
    let mut i: usize = 0;
    while i < rules.len()
        invariant
            i <= rules.len(),
            sets@.len() == i,
            forall|k: int| 0 <= k < i ==> is_set_of(#[trigger] sets@[k], rules@[k]@.pattern),
        decreases rules.len() - i,
    {
        let mut one: Vec<String> = Vec::new();
        one.push(rules[i].pattern.clone());
        proof {
            assert(text_views(one@) =~= seq![rules@[i as int]@.pattern]);
        }
        let ghost pattern = seq![rules@[i as int]@.pattern];
        let built = build_globset(&one);
        proof {
            match built {
                Ok(_) => {},
                Err(GlobError::Pattern(at)) => {
                    assert(!glob_parses(pattern[at as int]));
                },
                Err(GlobError::Build) => {},
            }
        }
        let set = match built {
            Ok(set) => Some(set),
            Err(_) => None,
        };
        let ghost before = sets@;
        sets.push(set);
        proof {
            assert forall|k: int| 0 <= k < i implies #[trigger] sets@[k] == before[k] by {}
        }
        i += 1;
    }
    sets
}

fn score_path(rules: &Vec<RuleRow>, sets: &Vec<Option<globset::GlobSet>>, path: &str) -> (score:
    Option<i64>)
    requires
        sets@.len() == rules@.len(),
        forall|k: int| 0 <= k < rules@.len() ==> is_set_of(#[trigger] sets@[k], rules@[k]@.pattern),
    ensures
        score == score_of(rule_views(rules@), path@),
{
    let ghost all = rule_views(rules@);
    let mut score: Option<i64> = None;
    let mut i: usize = 0;
    while i < rules.len()
        invariant
            i <= rules.len(),
            sets@.len() == rules@.len(),
            all == rule_views(rules@),
            forall|k: int| 0 <= k < rules@.len() ==> is_set_of(#[trigger] sets@[k], rules@[k]@.pattern),
            score == score_of(all.take(i as int), path@),
        decreases rules.len() - i,
    {
        proof {
            assert(all.take(i + 1).drop_last() =~= all.take(i as int));
            assert(all.take(i + 1).last() == rules@[i as int]@);
        }
        let hit = match &sets[i] {
            Some(set) => set_is_match(set, path),
            None => false,
        };
        if hit {
            score = pick_better(score, Some(rules[i].priority));
        }
        i += 1;
    }
    proof {
        assert(all.take(i as int) =~= all);
    }
    score
}

// ----------------------------------------------------------------------------
// The state of a group
// ----------------------------------------------------------------------------

/// A duplicate group under review: its files, what is to become of each, the
/// file that the cursor is on, and the rule that is being typed.
pub struct GroupState {
    files: Vec<FileRow>,
    actions: Vec<FileAction>,
    selected: Option<usize>,
    input_mode: Option<InputMode>,
    rule_pattern: String,
    rule_priority: String,
    status_msg: String,
}

/// What a `GroupState` stands for.
pub struct GroupStateView {
    pub files: Seq<FileRowView>,
    pub actions: Seq<FileAction>,
    pub selected: Option<usize>,
    pub input_mode: Option<InputMode>,
    pub rule_pattern: Seq<char>,
    pub rule_priority: Seq<char>,
    pub status_msg: Seq<char>,
}

impl View for GroupState {
    type V = GroupStateView;

    closed spec fn view(&self) -> GroupStateView {
        GroupStateView {
            files: file_views(self.files@),
            actions: self.actions@,
            selected: self.selected,
            input_mode: self.input_mode,
            rule_pattern: self.rule_pattern@,
            rule_priority: self.rule_priority@,
            status_msg: self.status_msg@,
        }
    }
}

/// Each file has an action, and the cursor is on a file if it is anywhere.
pub open spec fn group_wf(g: GroupStateView) -> bool {
    &&& g.actions.len() == g.files.len()
    &&& g.selected matches Some(at) ==> at < g.files.len()
}

/// A group is decided when one file at least is kept and one at least is
/// deleted.
pub open spec fn decided(actions: Seq<FileAction>) -> bool {
    actions.contains(FileAction::Keep) && actions.contains(FileAction::Delete)
}

/// The actions when the file at `at` gets `one` and every other file `rest`.
pub open spec fn one_against_rest(len: nat, at: int, one: FileAction, rest: FileAction) -> Seq<
    FileAction,
> {
    Seq::new(
        len,
        |i: int|
            if i == at {
                one
            } else {
                rest
            },
    )
}

/// The position of the score that is above every other.
pub open spec fn single_best(scores: Seq<Option<i64>>) -> int {
    choose|at: int| is_single_best(scores, at)
}

/// The group after the rules were applied. Where one file scores above
/// every other, that file is kept and every other deleted; otherwise
/// nothing changes.
pub open spec fn auto_resolved(g: GroupStateView, rules: Seq<RuleRowView>) -> GroupStateView {
    let scores = scores_of(rules, g.files);
    if has_single_best(scores) {
        GroupStateView {
            actions: one_against_rest(
                g.files.len(),
                single_best(scores),
                FileAction::Keep,
                FileAction::Delete,
            ),
            status_msg: "Auto-resolved by priority rule."@,
            ..g
        }
    } else {
        g
    }
}

/// The cursor after a move by `delta` files, held within the group.
pub open spec fn moved(selected: Option<usize>, delta: int, len: nat) -> Option<usize> {
    if len == 0 {
        selected
    } else {
        let from = match selected {
            Some(at) => at as int,
            None => 0,
        };
        let to = from + delta;
        if to < 0 {
            Some(0usize)
        } else if to > len - 1 {
            Some((len - 1) as usize)
        } else {
            Some(to as usize)
        }
    }
}

/// The paths of the files that are marked for deletion, in the order of the
/// group.
pub open spec fn marked_paths(files: Seq<FileRowView>, actions: Seq<FileAction>) -> Seq<Seq<char>>
    decreases files.len(),
{
    if files.len() == 0 || actions.len() != files.len() {
        Seq::empty()
    } else if actions.last() == FileAction::Delete {
        marked_paths(files.drop_last(), actions.drop_last()).push(files.last().canonical_path)
    } else {
        marked_paths(files.drop_last(), actions.drop_last())
    }
}

/// At most one score is above every other.
pub proof fn lemma_single_best_is_unique(scores: Seq<Option<i64>>, a: int, b: int)
    requires
        is_single_best(scores, a),
        is_single_best(scores, b),
    ensures
        a == b,
{
    if a != b {
        assert(below(scores[a], scores[b]));
        assert(below(scores[b], scores[a]));
    }
}

impl GroupState {
    /// Each file has an action, and the cursor is on a file if it is anywhere.
    pub open spec fn wf(&self) -> bool {
        group_wf(self@)
    }

    /// The review of a group begins: no file is decided, the cursor is on
    /// the first file, and no rule is being typed.
    pub fn new(group: &DuplicateGroup) -> (state: GroupState)
        ensures
            state.wf(),
            state@ == (GroupStateView {
                files: group@.files,
                actions: Seq::new(group@.files.len(), |i: int| FileAction::Undecided),
                selected: if group@.files.len() > 0 {
                    Some(0usize)
                } else {
                    None
                },
                input_mode: None,
                rule_pattern: Seq::empty(),
                rule_priority: Seq::empty(),
                status_msg: Seq::empty(),
            }),
    {
        let files = clone_files(&group.files);
        let mut actions: Vec<FileAction> = Vec::new();
        let mut i: usize = 0;
        while i < files.len()
            invariant
                i <= files.len(),
                actions@ =~= Seq::new(i as nat, |k: int| FileAction::Undecided),
            decreases files.len() - i,
        {
            actions.push(FileAction::Undecided);
            i += 1;
        }
        let selected = if files.len() > 0 {
            Some(0)
        } else {
            None
        };
        let state = GroupState {
            files,
            actions,
            selected,
            input_mode: None,
            rule_pattern: String::new(),
            rule_priority: String::new(),
            status_msg: String::new(),
        };
        proof {
            assert(state@.actions =~= Seq::new(group@.files.len(), |i: int| FileAction::Undecided));
        }
        state
    }

    /// The files of the group.
    pub fn files(&self) -> (files: &Vec<FileRow>)
        ensures
            file_views(files@) == self@.files,
    {
        &self.files
    }

    /// What is to become of each file.
    pub fn actions(&self) -> (actions: &Vec<FileAction>)
        ensures
            actions@ == self@.actions,
    {
        &self.actions
    }

    /// The position of the file that the cursor is on.
    pub fn selected(&self) -> (selected: Option<usize>)
        ensures
            selected == self@.selected,
    {
        self.selected
    }

    /// Which field of a new rule is being typed, if one is.
    pub fn input_mode(&self) -> (mode: Option<InputMode>)
        ensures
            mode == self@.input_mode,
    {
        self.input_mode
    }

    /// The pattern typed so far.
    pub fn rule_pattern(&self) -> (text: &String)
        ensures
            text@ == self@.rule_pattern,
    {
        &self.rule_pattern
    }

    /// The priority typed so far.
    pub fn rule_priority(&self) -> (text: &String)
        ensures
            text@ == self@.rule_priority,
    {
        &self.rule_priority
    }

    /// What the review last has to say.
    pub fn status_msg(&self) -> (text: &String)
        ensures
            text@ == self@.status_msg,
    {
        &self.status_msg
    }

    fn set_all(&mut self, at: usize, one: FileAction, rest: FileAction)
        requires
            old(self).wf(),
            at < old(self)@.files.len(),
        ensures
            final(self).wf(),
            final(self)@ == (GroupStateView {
                actions: one_against_rest(old(self)@.files.len(), at as int, one, rest),
                ..old(self)@
            }),
    {
        let mut actions: Vec<FileAction> = Vec::new();
        let mut i: usize = 0;
        while i < self.files.len()
            invariant
                i <= self.files.len(),
                at < self.files.len(),
                actions@ =~= one_against_rest(i as nat, at as int, one, rest),
            decreases self.files.len() - i,
        {
            if i == at {
                actions.push(one);
            } else {
                actions.push(rest);
            }
            i += 1;
        }
        self.actions = actions;
    }

    /// Applies the rules to the group. Each file scores the highest priority
    /// among the rules that match its path, and nothing where none does.
    /// Where one file scores above every other, it is kept and every
    /// other deleted. Otherwise the group stays as it is.
    pub fn apply_rules(&mut self, rules: &Vec<RuleRow>)
        requires
            old(self).wf(),
        ensures
            final(self).wf(),
            final(self)@ == auto_resolved(old(self)@, rule_views(rules@)),
    {
        let ghost all = rule_views(rules@);
        let ghost files = self@.files;
        let ghost scores_spec = scores_of(all, files);
        let sets = rule_sets(rules);
        let mut scores: Vec<Option<i64>> = Vec::new();
        let mut i: usize = 0;
        while i < self.files.len()
            invariant
                i <= self.files.len(),
                files == self@.files,
                all == rule_views(rules@),
                scores_spec == scores_of(all, files),
                sets@.len() == rules@.len(),
                forall|k: int| 0 <= k < rules@.len() ==> is_set_of(#[trigger] sets@[k], rules@[k]@.pattern),
                scores@ =~= scores_spec.take(i as int),
            decreases self.files.len() - i,
        {
            let score = score_path(rules, &sets, self.files[i].canonical_path.as_str());
            scores.push(score);
            i += 1;
        }
        proof {
            assert(scores_spec.take(i as int) =~= scores_spec);
        }
        if scores.len() == 0 {
            proof {
                assert(!has_single_best(scores_spec));
            }
            return ;
        }
        let mut best: usize = 0;
        let mut j: usize = 1;
        while j < scores.len()
            invariant
                0 <= best < j <= scores.len(),
                forall|k: int| 0 <= k < j ==> !below(scores@[best as int], #[trigger] scores@[k]),
            decreases scores.len() - j,
        {
            if is_below(scores[best], scores[j]) {
                best = j;
            }
            j += 1;
        }
        let mut alone = true;
        let mut k: usize = 0;
        while k < scores.len()
            invariant
                k <= scores.len(),
                best < scores.len(),
                alone == (forall|m: int|
                    0 <= m < k && m != best ==> below(#[trigger] scores@[m], scores@[best as int])),
            decreases scores.len() - k,
        {
            if k != best && !is_below(scores[k], scores[best]) {
                alone = false;
            }
            k += 1;
        }
        if alone {
            proof {
                assert(is_single_best(scores_spec, best as int));
                lemma_single_best_is_unique(scores_spec, best as int, single_best(scores_spec));
            }
            self.set_all(best, FileAction::Keep, FileAction::Delete);
            self.status_msg = "Auto-resolved by priority rule.".to_owned();
        } else {
            proof {
                if has_single_best(scores_spec) {
                    let at = single_best(scores_spec);
                    if at != best {
                        assert(below(scores_spec[best as int], scores_spec[at]));
                        assert(!below(scores@[best as int], scores@[at]));
                    } else {
                        let m = choose|m: int|
                            0 <= m < scores@.len() && m != best && !below(
                                #[trigger] scores@[m],
                                scores@[best as int],
                            );
                        assert(below(scores_spec[m], scores_spec[at]));
                    }
                }
            }
        }
    }

    /// Whether the group is decided: whether one file at least is kept and
    /// one at least is deleted.
    pub fn is_decided(&self) -> (yes: bool)
        ensures
            yes == decided(self@.actions),
    {
        let mut keeps = false;
        let mut deletes = false;
        let mut i: usize = 0;
        while i < self.actions.len()
            invariant
                i <= self.actions.len(),
                keeps == self.actions@.take(i as int).contains(FileAction::Keep),
                deletes == self.actions@.take(i as int).contains(FileAction::Delete),
            decreases self.actions.len() - i,
        {
            let ghost before = self.actions@.take(i as int);
            let ghost after = self.actions@.take(i + 1);
            proof {
                assert(after =~= before.push(self.actions@[i as int]));
                assert(after[i as int] == self.actions@[i as int]);
                assert forall|a: FileAction| before.contains(a) implies after.contains(a) by {
                    let p = choose|p: int| 0 <= p < before.len() && before[p] == a;
                    assert(after[p] == a);
                }
                assert forall|a: FileAction|
                    after.contains(a) && a != self.actions@[i as int] implies before.contains(
                    a,
                ) by {
                    let p = choose|p: int| 0 <= p < after.len() && after[p] == a;
                    assert(before[p] == a);
                }
            }
            match self.actions[i] {
                FileAction::Keep => {
                    keeps = true;
                },
                FileAction::Delete => {
                    deletes = true;
                },
                FileAction::Undecided => {},
            }
            i += 1;
        }
        proof {
            assert(self.actions@.take(i as int) =~= self.actions@);
        }
        keeps && deletes
    }

    /// Moves the cursor by `delta` files, and no further than the first and
    /// the last file.
    pub fn move_selection(&mut self, delta: i32)
        requires
            old(self).wf(),
        ensures
            final(self).wf(),
            final(self)@ == (GroupStateView {
                selected: moved(old(self)@.selected, delta as int, old(self)@.files.len()),
                ..old(self)@
            }),
    {
        let len = self.files.len();
        if len == 0 {
            return ;
        }
        let from: usize = match self.selected {
            Some(at) => at,
            None => 0,
        };
        let to: i128 = from as i128 + delta as i128;
        if to < 0 {
            self.selected = Some(0);
        } else if to > (len - 1) as i128 {
            self.selected = Some(len - 1);
        } else {
            self.selected = Some(to as usize);
        }
    }

    /// Marks the file under the cursor for deletion, and every other file
    /// to be kept.
    pub fn mark_delete(&mut self)
        requires
            old(self).wf(),
        ensures
            final(self).wf(),
            final(self)@ == match old(self)@.selected {
                Some(at) => GroupStateView {
                    actions: one_against_rest(
                        old(self)@.files.len(),
                        at as int,
                        FileAction::Delete,
                        FileAction::Keep,
                    ),
                    ..old(self)@
                },
                None => old(self)@,
            },
    {
        match self.selected {
            Some(at) => {
                self.set_all(at, FileAction::Delete, FileAction::Keep);
            },
            None => {},
        }
    }

    /// Marks the file under the cursor to be kept, and every other file for
    /// deletion.
    pub fn mark_keep(&mut self)
        requires
            old(self).wf(),
        ensures
            final(self).wf(),
            final(self)@ == match old(self)@.selected {
                Some(at) => GroupStateView {
                    actions: one_against_rest(
                        old(self)@.files.len(),
                        at as int,
                        FileAction::Keep,
                        FileAction::Delete,
                    ),
                    ..old(self)@
                },
                None => old(self)@,
            },
    {
        match self.selected {
            Some(at) => {
                self.set_all(at, FileAction::Keep, FileAction::Delete);
            },
            None => {},
        }
    }

    /// The paths of the files that are marked for deletion, in the order of
    /// the group.
    pub fn files_to_delete(&self) -> (paths: Vec<String>)
        requires
            self.wf(),
        ensures
            text_views(paths@) == marked_paths(self@.files, self@.actions),
    {
        let ghost files = self@.files;
        let ghost actions = self@.actions;
        let mut paths: Vec<String> = Vec::new();
        let mut i: usize = 0;
        while i < self.files.len()
            invariant
                i <= self.files.len(),
                files == self@.files,
                actions == self@.actions,
                actions.len() == files.len(),
                text_views(paths@) =~= marked_paths(files.take(i as int), actions.take(i as int)),
            decreases self.files.len() - i,
        {
            proof {
                assert(files.take(i + 1).drop_last() =~= files.take(i as int));
                assert(actions.take(i + 1).drop_last() =~= actions.take(i as int));
            }
            if self.actions[i] == FileAction::Delete {
                let ghost prev = text_views(paths@);
                paths.push(self.files[i].canonical_path.clone());
                proof {
                    assert(text_views(paths@) =~= prev.push(files[i as int].canonical_path));
                }
            }
            i += 1;
        }
        proof {
            assert(files.take(i as int) =~= files);
            assert(actions.take(i as int) =~= actions);
        }
        paths
    }
}

// ----------------------------------------------------------------------------
// Keys
// ----------------------------------------------------------------------------

/// A priority is typed in decimal digits, with `-` in the first place at most.
pub open spec fn fits_priority(c: char, typed: Seq<char>) -> bool {
    is_digit(c) || (c == '-' && typed.len() == 0)
}

/// The priority that a typed text stands for: the number it writes, and
/// zero where it writes none.
pub open spec fn typed_priority(typed: Seq<char>) -> i64 {
    match parsed_i64(typed) {
        Some(n) => n,
        None => 0,
    }
}

/// What the review says after a rule was added.
pub open spec fn rule_added_text(pattern: Seq<char>, priority: i64) -> Seq<char> {
    "Rule added: "@ + pattern + " (priority "@ + signed_decimal(priority as int) + ")"@
}

/// The group after a key while a rule is being typed, but for the key that
/// ends the typing of the priority.
pub open spec fn after_typing(g: GroupStateView, mode: InputMode, key: Key) -> GroupStateView {
    match key {
        Key::Esc => GroupStateView {
            input_mode: None,
            rule_pattern: Seq::empty(),
            rule_priority: Seq::empty(),
            ..g
        },
        Key::Enter => if mode == InputMode::RulePattern && g.rule_pattern.len() > 0 {
            GroupStateView { input_mode: Some(InputMode::RulePriority), ..g }
        } else {
            g
        },
        Key::Backspace => match mode {
            InputMode::RulePattern => GroupStateView {
                rule_pattern: without_last(g.rule_pattern),
                ..g
            },
            InputMode::RulePriority => GroupStateView {
                rule_priority: without_last(g.rule_priority),
                ..g
            },
        },
        Key::Char(c) => match mode {
            InputMode::RulePattern => GroupStateView { rule_pattern: g.rule_pattern.push(c), ..g },
            InputMode::RulePriority => if fits_priority(c, g.rule_priority) {
                GroupStateView { rule_priority: g.rule_priority.push(c), ..g }
            } else {
                g
            },
        },
        _ => g,
    }
}

/// The group after the rule that was typed has joined `rules`: the typing is
/// over, and the rules are applied again.
pub open spec fn after_new_rule(g: GroupStateView, rules: Seq<RuleRowView>) -> GroupStateView {
    auto_resolved(
        GroupStateView {
            status_msg: rule_added_text(g.rule_pattern, typed_priority(g.rule_priority)),
            input_mode: None,
            rule_pattern: Seq::empty(),
            rule_priority: Seq::empty(),
            ..g
        },
        rules,
    )
}

/// The group after the cursor's file was marked with `one` and every other
/// file with `rest`.
pub open spec fn after_mark(g: GroupStateView, one: FileAction, rest: FileAction) -> GroupStateView {
    match g.selected {
        Some(at) => GroupStateView {
            actions: one_against_rest(g.files.len(), at as int, one, rest),
            ..g
        },
        None => g,
    }
}

/// The group after a key while no rule is being typed.
pub open spec fn after_command(g: GroupStateView, key: Key) -> GroupStateView {
    match key {
        Key::Up => GroupStateView { selected: moved(g.selected, -1, g.files.len()), ..g },
        Key::Down => GroupStateView { selected: moved(g.selected, 1, g.files.len()), ..g },
        Key::Char(c) => if c == 'k' {
            after_mark(g, FileAction::Keep, FileAction::Delete)
        } else if c == 'd' {
            after_mark(g, FileAction::Delete, FileAction::Keep)
        } else if c == 'r' {
            GroupStateView { input_mode: Some(InputMode::RulePattern), ..g }
        } else {
            g
        },
        Key::Enter => if decided(g.actions) {
            g
        } else {
            after_mark(g, FileAction::Delete, FileAction::Keep)
        },
        _ => g,
    }
}

/// How a key ends the work on the group, if it ends it, while no rule is
/// being typed. A group can be confirmed only when it is decided.
pub open spec fn command_result(g: GroupStateView, key: Key) -> Option<GroupResult> {
    match key {
        Key::Esc => Some(GroupResult::Quit),
        Key::Char(c) => if c == 'q' {
            Some(GroupResult::Quit)
        } else if c == 's' {
            Some(GroupResult::Skip)
        } else if c == ' ' && decided(g.actions) {
            Some(GroupResult::Confirm)
        } else {
            None
        },
        Key::Enter => if decided(g.actions) {
            Some(GroupResult::Confirm)
        } else {
            None
        },
        _ => None,
    }
}

/// The key ends the typing of a priority, and so of a rule.
pub open spec fn ends_rule(g: GroupStateView, key: Key) -> bool {
    g.input_mode == Some(InputMode::RulePriority) && key == Key::Enter
}

impl GroupState {
    /// Takes a key. While a rule is being typed, the key goes to the rule:
    /// the rule that is finished joins the index and `rules`, and the rules
    /// are applied again. Otherwise the key moves the cursor, marks files,
    /// begins a rule, or ends the work on the group, which the result then
    /// says.
    pub fn handle_key(&mut self, key: Key, db: &mut Db, rules: &mut Vec<RuleRow>) -> (result: Result<
        Option<GroupResult>,
        StoreError,
    >)
        requires
            old(self).wf(),
            old(db).wf(),
        ensures
            final(self).wf(),
            final(db).wf(),
            final(db)@.directories == old(db)@.directories,
            final(db)@.files == old(db)@.files,
            result is Err <==> ends_rule(old(self)@, key) && next_id(rule_ids(old(db)@.rules))
                > i64::MAX,
            result is Err ==> result == Err::<Option<GroupResult>, StoreError>(
                StoreError::IdExhausted,
            ) && final(self)@ == old(self)@ && final(db)@ == old(db)@ && final(rules)@
                == old(rules)@,
            result is Ok && ends_rule(old(self)@, key) ==> result == Ok::<
                Option<GroupResult>,
                StoreError,
            >(None) && rule_inserted(
                old(db)@.rules,
                final(db)@.rules,
                old(self)@.rule_pattern,
                typed_priority(old(self)@.rule_priority),
            ) && rule_views(final(rules)@) == rule_views(old(rules)@).push(
                RuleRowView {
                    id: 0,
                    pattern: old(self)@.rule_pattern,
                    priority: typed_priority(old(self)@.rule_priority),
                },
            ) && final(self)@ == after_new_rule(old(self)@, rule_views(final(rules)@)),
            !ends_rule(old(self)@, key) ==> final(db)@ == old(db)@ && final(rules)@ == old(rules)@,
            !ends_rule(old(self)@, key) ==> match old(self)@.input_mode {
                Some(mode) => result == Ok::<Option<GroupResult>, StoreError>(None) && final(self)@
                    == after_typing(old(self)@, mode, key),
                None => result == Ok::<Option<GroupResult>, StoreError>(
                    command_result(old(self)@, key),
                ) && final(self)@ == after_command(old(self)@, key),
            },
    {
        match self.input_mode {
            Some(mode) => {
                match key {
                    Key::Esc => {
                        self.input_mode = None;
                        self.rule_pattern = String::new();
                        self.rule_priority = String::new();
                    },
                    Key::Enter => match mode {
                        InputMode::RulePattern => {
                            if !self.rule_pattern.as_str().is_empty() {
                                self.input_mode = Some(InputMode::RulePriority);
                            }
                        },
                        InputMode::RulePriority => {
                            let priority = match parse_i64(self.rule_priority.as_str()) {
                                Some(n) => n,
                                None => 0,
                            };
                            match db.insert_rule(self.rule_pattern.as_str(), priority) {
                                Ok(()) => {},
                                Err(e) => {
                                    return Err(e);
                                },
                            }
                            let ghost before = rule_views(rules@);
                            rules.push(
                                RuleRow { id: 0, pattern: self.rule_pattern.clone(), priority },
                            );
                            proof {
                                assert(rule_views(rules@) =~= before.push(
                                    RuleRowView { id: 0, pattern: self@.rule_pattern, priority },
                                ));
                            }
                            let mut status = "Rule added: ".to_owned();
                            status.append(self.rule_pattern.as_str());
                            status.append(" (priority ");
                            push_signed_decimal(&mut status, priority);
                            status.append(")");
                            self.status_msg = status;
                            self.input_mode = None;
                            self.rule_pattern = String::new();
                            self.rule_priority = String::new();
                            self.apply_rules(rules);
                        },
                    },
                    Key::Backspace => match mode {
                        InputMode::RulePattern => {
                            self.rule_pattern = without_last_char(self.rule_pattern.as_str());
                        },
                        InputMode::RulePriority => {
                            self.rule_priority = without_last_char(self.rule_priority.as_str());
                        },
                    },
                    Key::Char(c) => match mode {
                        InputMode::RulePattern => {
                            self.rule_pattern.push(c);
                        },
                        InputMode::RulePriority => {
                            if ('0' <= c && c <= '9') || (c == '-'
                                && self.rule_priority.as_str().is_empty()) {
                                self.rule_priority.push(c);
                            }
                        },
                    },
                    _ => {},
                }
                Ok(None)
            },
            None => {
                match key {
                    Key::Esc => Ok(Some(GroupResult::Quit)),
                    Key::Up => {
                        self.move_selection(-1);
                        Ok(None)
                    },
                    Key::Down => {
                        self.move_selection(1);
                        Ok(None)
                    },
                    Key::Enter => {
                        if self.is_decided() {
                            Ok(Some(GroupResult::Confirm))
                        } else {
                            self.mark_delete();
                            Ok(None)
                        }
                    },
                    Key::Char(c) => {
                        if c == 'q' {
                            Ok(Some(GroupResult::Quit))
                        } else if c == 's' {
                            Ok(Some(GroupResult::Skip))
                        } else if c == 'k' {
                            self.mark_keep();
                            Ok(None)
                        } else if c == 'd' {
                            self.mark_delete();
                            Ok(None)
                        } else if c == 'r' {
                            self.input_mode = Some(InputMode::RulePattern);
                            Ok(None)
                        } else if c == ' ' && self.is_decided() {
                            Ok(Some(GroupResult::Confirm))
                        } else {
                            Ok(None)
                        }
                    },
                    _ => Ok(None),
                }
            },
        }
    }

    /// The files to remove from the file system when the group is
    /// confirmed: those marked for deletion, and none in a dry run.
    pub fn deletion_plan(&self, dry_run: bool) -> (paths: Vec<String>)
        requires
            self.wf(),
        ensures
            text_views(paths@) == if dry_run {
                Seq::<Seq<char>>::empty()
            } else {
                marked_paths(self@.files, self@.actions)
            },
    {
        if dry_run {
            let paths: Vec<String> = Vec::new();
            proof {
                assert(text_views(paths@) =~= Seq::<Seq<char>>::empty());
            }
            paths
        } else {
            self.files_to_delete()
        }
    }
}

/// What became of a file that was to be removed from the file system.
#[derive(Debug)]
pub struct Removal {
    /// The canonical path of the file.
    pub path: String,
    /// Whether the file system removed it.
    pub removed: bool,
}

/// What a `Removal` stands for.
pub struct RemovalView {
    pub path: Seq<char>,
    pub removed: bool,
}

impl View for Removal {
    type V = RemovalView;

    open spec fn view(&self) -> RemovalView {
        RemovalView { path: self.path@, removed: self.removed }
    }
}

/// What a list of removals stands for.
pub open spec fn removal_views(removals: Seq<Removal>) -> Seq<RemovalView> {
    removals.map_values(|r: Removal| r@)
}

/// The files without the rows of those that the file system removed. The
/// row of a file that it could not remove stays, so that the next scan
/// finds the file again.
pub open spec fn without_removed(files: Seq<FileRowView>, removals: Seq<RemovalView>) -> Seq<
    FileRowView,
>
    decreases removals.len(),
{
    if removals.len() == 0 {
        files
    } else if removals.last().removed {
        without_removed(files, removals.drop_last()).filter(not_file_path(removals.last().path))
    } else {
        without_removed(files, removals.drop_last())
    }
}

/// Forgets the files that the file system removed.
pub fn record_removals(db: &mut Db, removals: &Vec<Removal>)
    requires
        old(db).wf(),
    ensures
        final(db).wf(),
        final(db)@.directories == old(db)@.directories,
        final(db)@.rules == old(db)@.rules,
        final(db)@.files == without_removed(old(db)@.files, removal_views(removals@)),
        hashes_consistent(old(db)@.files) ==> hashes_consistent(final(db)@.files),
{
    let ghost start = db@.files;
    let ghost items = removal_views(removals@);
    let mut i: usize = 0;
    while i < removals.len()
        invariant
            i <= removals.len(),
            db.wf(),
            items == removal_views(removals@),
            db@.directories == old(db)@.directories,
            db@.rules == old(db)@.rules,
            db@.files == without_removed(start, items.take(i as int)),
            hashes_consistent(start) ==> hashes_consistent(db@.files),
        decreases removals.len() - i,
    {
        proof {
            assert(items.take(i + 1).drop_last() =~= items.take(i as int));
        }
        if removals[i].removed {
            db.delete_file_by_path(removals[i].path.as_str());
        }
        i += 1;
    }
    proof {
        assert(items.take(i as int) =~= items);
    }
}

/// Which group comes after the group at `index` of `total`, if one does:
/// none after the last group, and none once the run was ended.
pub fn next_group(index: usize, total: usize, result: GroupResult) -> (next: Option<usize>)
    ensures
        next == if result != GroupResult::Quit && index + 1 < total {
            Some((index + 1) as usize)
        } else {
            None
        },
{
    match result {
        GroupResult::Quit => None,
        _ => if index < usize::MAX && index + 1 < total {
            Some(index + 1)
        } else {
            None
        },
    }
}

} // verus!
