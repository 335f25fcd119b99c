use fdedupe::db::Db;
use fdedupe::model::StoreError;
use fdedupe::remove::{
    next_group, record_removals, FileAction, GroupResult, GroupState, InputMode, Removal,
};
use fdedupe::rows::{DuplicateGroup, FileRow, RuleRow};
use fdedupe::tui::Key;

use fdedupe::remove::FileAction::{Delete, Keep, Undecided};

fn file(id: i64, path: &str) -> FileRow {
    FileRow {
        id,
        directory_id: 1,
        name: path.rsplit('/').next().unwrap().to_string(),
        canonical_path: path.to_string(),
        size: 12,
        modified_at: 0,
        fast_hash: Some("f".to_string()),
        full_hash: Some("h".to_string()),
    }
}

fn group(paths: &[&str]) -> DuplicateGroup {
    let files = paths.iter().enumerate().map(|(i, p)| file(i as i64 + 1, p)).collect();
    DuplicateGroup { full_hash: "h".to_string(), files }
}

fn rule(pattern: &str, priority: i64) -> RuleRow {
    RuleRow { id: 0, pattern: pattern.to_string(), priority }
}

fn three() -> GroupState {
    GroupState::new(&group(&["/r/alpha/a.txt", "/r/alpha/nested/b.txt", "/r/beta/c.txt"]))
}

fn actions(state: &GroupState) -> Vec<FileAction> {
    state.actions().clone()
}

fn press(state: &mut GroupState, db: &mut Db, rules: &mut Vec<RuleRow>, keys: &[Key]) {
    for key in keys {
        assert_eq!(state.handle_key(*key, db, rules), Ok(None));
    }
}

fn typed(text: &str) -> Vec<Key> {
    text.chars().map(Key::Char).collect()
}

#[test]
fn a_new_group_is_undecided_with_the_cursor_on_the_first_file() {
    let state = three();
    assert_eq!(actions(&state), vec![Undecided, Undecided, Undecided]);
    assert_eq!(state.selected(), Some(0));
    assert_eq!(state.input_mode(), None);
    assert_eq!(state.status_msg(), "");
    assert_eq!(state.files().len(), 3);
    assert!(!state.is_decided());
    let empty = GroupState::new(&group(&[]));
    assert_eq!(empty.selected(), None);
    assert!(!empty.is_decided());
}

#[test]
fn marking_one_file_flips_every_other() {
    let mut state = three();
    state.move_selection(1);
    state.mark_keep();
    assert_eq!(actions(&state), vec![Delete, Keep, Delete]);
    assert!(state.is_decided());
    state.move_selection(1);
    state.mark_delete();
    assert_eq!(actions(&state), vec![Keep, Keep, Delete]);
    assert!(state.is_decided());
    assert_eq!(state.files_to_delete(), vec!["/r/beta/c.txt".to_string()]);
}

#[test]
fn a_group_is_decided_only_with_a_keep_and_a_delete() {
    let mut one = GroupState::new(&group(&["/r/a"]));
    one.mark_keep();
    assert_eq!(actions(&one), vec![Keep]);
    assert!(!one.is_decided());
    one.mark_delete();
    assert_eq!(actions(&one), vec![Delete]);
    assert!(!one.is_decided());
    let mut two = GroupState::new(&group(&["/r/a", "/r/b"]));
    assert!(!two.is_decided());
    two.mark_delete();
    assert_eq!(actions(&two), vec![Delete, Keep]);
    assert!(two.is_decided());
}

#[test]
fn the_cursor_stays_within_the_group() {
    let mut state = three();
    state.move_selection(-1);
    assert_eq!(state.selected(), Some(0));
    state.move_selection(2);
    assert_eq!(state.selected(), Some(2));
    state.move_selection(1);
    assert_eq!(state.selected(), Some(2));
    state.move_selection(i32::MIN);
    assert_eq!(state.selected(), Some(0));
    state.move_selection(i32::MAX);
    assert_eq!(state.selected(), Some(2));
    state.move_selection(-1);
    assert_eq!(state.selected(), Some(1));
    let mut empty = GroupState::new(&group(&[]));
    empty.move_selection(1);
    assert_eq!(empty.selected(), None);
}

#[test]
fn the_single_highest_score_is_kept() {
    let mut state = three();
    state.apply_rules(&vec![rule("*/nested/*", 1)]);
    assert_eq!(actions(&state), vec![Delete, Keep, Delete]);
    assert_eq!(state.status_msg(), "Auto-resolved by priority rule.");
    assert!(state.is_decided());

    let mut state = three();
    state.apply_rules(&vec![rule("*/alpha/*", 1), rule("/r/beta/*", 2), rule("*/nested/*", 1)]);
    assert_eq!(actions(&state), vec![Delete, Delete, Keep]);

    let mut state = three();
    state.apply_rules(&vec![rule("*", 5), rule("*/alpha/a.txt", -2), rule("*/nested/*", 5)]);
    assert_eq!(actions(&state), vec![Undecided, Undecided, Undecided]);
    assert_eq!(state.status_msg(), "");
}

#[test]
fn a_tie_or_no_match_leaves_the_group_untouched() {
    let mut state = three();
    state.apply_rules(&vec![rule("*/alpha/*", 3)]);
    assert_eq!(actions(&state), vec![Undecided, Undecided, Undecided]);
    state.apply_rules(&Vec::new());
    assert_eq!(actions(&state), vec![Undecided, Undecided, Undecided]);
    state.apply_rules(&vec![rule("*/nowhere/*", 3), rule("[", 9)]);
    assert_eq!(actions(&state), vec![Undecided, Undecided, Undecided]);
    state.mark_keep();
    state.apply_rules(&vec![rule("*", 1)]);
    assert_eq!(actions(&state), vec![Keep, Delete, Delete]);
    assert_eq!(state.status_msg(), "");
}

#[test]
fn a_match_of_the_lowest_priority_is_above_no_match() {
    let mut state = three();
    state.apply_rules(&vec![rule("*/beta/*", i64::MIN)]);
    assert_eq!(actions(&state), vec![Delete, Delete, Keep]);
    let mut state = three();
    state.apply_rules(&vec![rule("*/beta/*", i64::MIN), rule("*/nested/*", i64::MAX)]);
    assert_eq!(actions(&state), vec![Delete, Keep, Delete]);
}

#[test]
fn the_rules_decide_the_same_way_every_time() {
    let rules = vec![rule("*/nested/*", 4), rule("*/alpha/*", 2), rule("*.txt", 0)];
    let mut first = three();
    first.apply_rules(&rules);
    for _ in 0..5 {
        let mut again = three();
        again.apply_rules(&rules);
        assert_eq!(actions(&again), actions(&first));
        assert_eq!(again.is_decided(), first.is_decided());
    }
    assert_eq!(actions(&first), vec![Delete, Keep, Delete]);
    let mut reversed = three();
    reversed.apply_rules(&vec![rule("*.txt", 0), rule("*/alpha/*", 2), rule("*/nested/*", 4)]);
    assert_eq!(actions(&reversed), actions(&first));
    let mut doubled = three();
    doubled.apply_rules(&vec![rule("*/nested/*", 4), rule("*/nested/*", 4), rule("*.txt", 0)]);
    assert_eq!(actions(&doubled), actions(&first));
}

#[test]
fn keys_move_mark_skip_and_quit() {
    let mut db = Db::new();
    let mut rules = Vec::new();
    let mut state = three();
    press(&mut state, &mut db, &mut rules, &[Key::Down, Key::Down, Key::Up]);
    assert_eq!(state.selected(), Some(1));
    press(&mut state, &mut db, &mut rules, &[Key::Char('k')]);
    assert_eq!(actions(&state), vec![Delete, Keep, Delete]);
    press(&mut state, &mut db, &mut rules, &[Key::Char('d')]);
    assert_eq!(actions(&state), vec![Keep, Delete, Keep]);
    press(&mut state, &mut db, &mut rules, &[Key::Other, Key::Backspace, Key::Char('x')]);
    assert_eq!(actions(&state), vec![Keep, Delete, Keep]);
    assert_eq!(state.handle_key(Key::Char('s'), &mut db, &mut rules), Ok(Some(GroupResult::Skip)));
    assert_eq!(state.handle_key(Key::Char('q'), &mut db, &mut rules), Ok(Some(GroupResult::Quit)));
    assert_eq!(state.handle_key(Key::Esc, &mut db, &mut rules), Ok(Some(GroupResult::Quit)));
    assert_eq!(actions(&state), vec![Keep, Delete, Keep]);
}

#[test]
fn a_group_can_be_confirmed_only_when_it_is_decided() {
    let mut db = Db::new();
    let mut rules = Vec::new();
    let mut state = three();
    assert_eq!(state.handle_key(Key::Char(' '), &mut db, &mut rules), Ok(None));
    assert_eq!(actions(&state), vec![Undecided, Undecided, Undecided]);
    assert_eq!(state.handle_key(Key::Enter, &mut db, &mut rules), Ok(None));
    assert_eq!(actions(&state), vec![Delete, Keep, Keep]);
    assert_eq!(state.handle_key(Key::Enter, &mut db, &mut rules), Ok(Some(GroupResult::Confirm)));
    assert_eq!(
        state.handle_key(Key::Char(' '), &mut db, &mut rules),
        Ok(Some(GroupResult::Confirm))
    );
    assert_eq!(actions(&state), vec![Delete, Keep, Keep]);
}

#[test]
fn typing_a_rule_adds_it_and_applies_the_rules_again() {
    let mut db = Db::new();
    let mut rules = vec![rule("*/alpha/*", 1)];
    let mut state = three();
    press(&mut state, &mut db, &mut rules, &[Key::Char('r')]);
    assert_eq!(state.input_mode(), Some(InputMode::RulePattern));
    press(&mut state, &mut db, &mut rules, &[Key::Enter]);
    assert_eq!(state.input_mode(), Some(InputMode::RulePattern));
    press(&mut state, &mut db, &mut rules, &typed("*/nestedx"));
    press(&mut state, &mut db, &mut rules, &[Key::Backspace, Key::Char('/'), Key::Char('*')]);
    assert_eq!(state.rule_pattern(), "*/nested/*");
    press(&mut state, &mut db, &mut rules, &[Key::Up, Key::Down, Key::Other]);
    assert_eq!(state.selected(), Some(0));
    press(&mut state, &mut db, &mut rules, &[Key::Enter]);
    assert_eq!(state.input_mode(), Some(InputMode::RulePriority));
    press(&mut state, &mut db, &mut rules, &typed("x-1-2a"));
    assert_eq!(state.rule_priority(), "-12");
    press(&mut state, &mut db, &mut rules, &[Key::Backspace, Key::Backspace, Key::Backspace]);
    assert_eq!(state.rule_priority(), "");
    press(&mut state, &mut db, &mut rules, &[Key::Backspace]);
    press(&mut state, &mut db, &mut rules, &typed("7"));
    assert_eq!(actions(&state), vec![Undecided, Undecided, Undecided]);
    press(&mut state, &mut db, &mut rules, &[Key::Enter]);
    assert_eq!(state.input_mode(), None);
    assert_eq!(state.rule_pattern(), "");
    assert_eq!(state.rule_priority(), "");
    assert_eq!(actions(&state), vec![Delete, Keep, Delete]);
    assert_eq!(state.status_msg(), "Auto-resolved by priority rule.");
    let in_memory: Vec<(i64, String, i64)> =
        rules.iter().map(|r| (r.id, r.pattern.clone(), r.priority)).collect();
    assert_eq!(
        in_memory,
        vec![(0, "*/alpha/*".to_string(), 1), (0, "*/nested/*".to_string(), 7)]
    );
    let stored: Vec<(i64, String, i64)> =
        db.all_rules().iter().map(|r| (r.id, r.pattern.clone(), r.priority)).collect();
    assert_eq!(stored, vec![(1, "*/nested/*".to_string(), 7)]);
}

#[test]
fn a_rule_that_decides_nothing_is_reported_as_added() {
    let mut db = Db::new();
    let mut rules = Vec::new();
    let mut state = three();
    press(&mut state, &mut db, &mut rules, &[Key::Char('r')]);
    press(&mut state, &mut db, &mut rules, &typed("*.txt"));
    press(&mut state, &mut db, &mut rules, &[Key::Enter]);
    press(&mut state, &mut db, &mut rules, &typed("-5"));
    press(&mut state, &mut db, &mut rules, &[Key::Enter]);
    assert_eq!(state.status_msg(), "Rule added: *.txt (priority -5)");
    assert_eq!(actions(&state), vec![Undecided, Undecided, Undecided]);
    assert_eq!(db.all_rules()[0].priority, -5);
}

#[test]
fn a_priority_that_is_no_number_counts_as_zero() {
    for typed_priority in ["", "-", "99999999999999999999"] {
        let mut db = Db::new();
        let mut rules = Vec::new();
        let mut state = three();
        press(&mut state, &mut db, &mut rules, &[Key::Char('r'), Key::Char('x'), Key::Enter]);
        press(&mut state, &mut db, &mut rules, &typed(typed_priority));
        press(&mut state, &mut db, &mut rules, &[Key::Enter]);
        assert_eq!(state.status_msg(), "Rule added: x (priority 0)");
        assert_eq!(rules[0].priority, 0);
    }
}

#[test]
fn escape_ends_the_typing_of_a_rule() {
    let mut db = Db::new();
    let mut rules = Vec::new();
    let mut state = three();
    press(&mut state, &mut db, &mut rules, &[Key::Char('r'), Key::Char('q'), Key::Char('s')]);
    assert_eq!(state.rule_pattern(), "qs");
    press(&mut state, &mut db, &mut rules, &[Key::Enter, Key::Char('4'), Key::Esc]);
    assert_eq!(state.input_mode(), None);
    assert_eq!(state.rule_pattern(), "");
    assert_eq!(state.rule_priority(), "");
    assert_eq!(rules.len(), 0);
    assert_eq!(db.all_rules().len(), 0);
}

#[test]
fn a_rule_that_the_index_refuses_changes_nothing() {
    let full = Db::from_rows(
        Vec::new(),
        Vec::new(),
        vec![RuleRow { id: i64::MAX, pattern: "*".to_string(), priority: 0 }],
    );
    let mut db = full.unwrap();
    let mut rules = Vec::new();
    let mut state = three();
    press(&mut state, &mut db, &mut rules, &[Key::Char('r'), Key::Char('x'), Key::Enter]);
    press(&mut state, &mut db, &mut rules, &[Key::Char('1')]);
    assert_eq!(
        state.handle_key(Key::Enter, &mut db, &mut rules),
        Err(StoreError::IdExhausted)
    );
    assert_eq!(state.input_mode(), Some(InputMode::RulePriority));
    assert_eq!(state.rule_pattern(), "x");
    assert_eq!(state.rule_priority(), "1");
    assert_eq!(rules.len(), 0);
    assert_eq!(db.all_rules().len(), 1);
}

#[test]
fn a_dry_run_plans_no_deletion() {
    let mut state = three();
    state.mark_keep();
    assert_eq!(
        state.deletion_plan(false),
        vec!["/r/alpha/nested/b.txt".to_string(), "/r/beta/c.txt".to_string()]
    );
    assert_eq!(state.deletion_plan(true), Vec::<String>::new());
    assert_eq!(three().deletion_plan(false), Vec::<String>::new());
}

#[test]
fn only_files_that_were_removed_leave_the_index() {
    let mut db = Db::new();
    let r = db.upsert_directory("/r").unwrap();
    for name in ["a", "b", "c"] {
        db.upsert_file(r, name, &format!("/r/{}", name), 1, 1, None, None).unwrap();
    }
    record_removals(&mut db, &Vec::new());
    assert_eq!(db.files().len(), 3);
    let removals = vec![
        Removal { path: "/r/a".to_string(), removed: true },
        Removal { path: "/r/b".to_string(), removed: false },
        Removal { path: "/r/zzz".to_string(), removed: true },
    ];
    record_removals(&mut db, &removals);
    let left: Vec<String> = db.files().iter().map(|f| f.canonical_path.clone()).collect();
    assert_eq!(left, vec!["/r/b".to_string(), "/r/c".to_string()]);
}

#[test]
fn the_run_goes_on_after_a_group_unless_it_was_quit() {
    assert_eq!(next_group(0, 3, GroupResult::Confirm), Some(1));
    assert_eq!(next_group(1, 3, GroupResult::Skip), Some(2));
    assert_eq!(next_group(2, 3, GroupResult::Confirm), None);
    assert_eq!(next_group(0, 3, GroupResult::Quit), None);
    assert_eq!(next_group(usize::MAX, usize::MAX, GroupResult::Skip), None);
    assert_eq!(next_group(0, 0, GroupResult::Skip), None);
}
