use fdedupe::db::{escape_like, Db, DirectoryRow, FileRow, RuleRow};
use fdedupe::model::StoreError;

fn file(id: i64, directory_id: i64, name: &str, path: &str, size: i64) -> FileRow {
    FileRow {
        id,
        directory_id,
        name: name.to_string(),
        canonical_path: path.to_string(),
        size,
        modified_at: 0,
        fast_hash: None,
        full_hash: None,
    }
}

fn dir(id: i64, path: &str) -> DirectoryRow {
    DirectoryRow { id, canonical_path: path.to_string(), last_scanned: None }
}

fn paths(rows: &[FileRow]) -> Vec<String> {
    rows.iter().map(|f| f.canonical_path.clone()).collect()
}

fn dir_paths(rows: &[DirectoryRow]) -> Vec<String> {
    rows.iter().map(|d| d.canonical_path.clone()).collect()
}

/// Two directories and four files, three of them with one full hash.
fn sample() -> Db {
    let mut db = Db::new();
    let a = db.upsert_directory("/r/a").unwrap();
    let b = db.upsert_directory("/r/b").unwrap();
    db.upsert_file(a, "one", "/r/a/one", 10, 1, Some("f1"), Some("h1")).unwrap();
    db.upsert_file(a, "two", "/r/a/two", 10, 1, Some("f1"), Some("h1")).unwrap();
    db.upsert_file(b, "three", "/r/b/three", 10, 1, Some("f1"), Some("h1")).unwrap();
    db.upsert_file(b, "four", "/r/b/four", 20, 1, Some("f2"), None).unwrap();
    db
}

#[test]
fn new_store_is_empty() {
    let db = Db::new();
    assert_eq!(db.files().len(), 0);
    assert_eq!(db.directories().len(), 0);
    assert_eq!(db.all_rules().len(), 0);
    assert_eq!(db.duplicate_groups().len(), 0);
    assert_eq!(db.candidates_needing_full_hash().len(), 0);
    assert_eq!(db.duplicate_stats_under("/"), Ok((0, 0)));
}

#[test]
fn upsert_directory_is_idempotent_and_keeps_the_scan_time() {
    let mut db = Db::new();
    let id = db.upsert_directory("/r").unwrap();
    assert_eq!(id, 1);
    assert_eq!(db.upsert_directory("/r/x"), Ok(2));
    db.set_directory_scanned(id, 77);
    assert_eq!(db.upsert_directory("/r"), Ok(1));
    let row = db.get_directory("/r").unwrap();
    assert_eq!((row.id, row.last_scanned), (1, Some(77)));
    assert_eq!(db.get_directory("/r/x").unwrap().last_scanned, None);
    assert!(db.get_directory("/other").is_none());
    assert_eq!(db.directories().len(), 2);
}

#[test]
fn set_directory_scanned_on_an_unknown_id_changes_nothing() {
    let mut db = Db::new();
    db.upsert_directory("/r").unwrap();
    db.set_directory_scanned(42, 5);
    assert_eq!(db.get_directory("/r").unwrap().last_scanned, None);
}

#[test]
fn child_directories_are_direct_children_only() {
    let mut db = Db::new();
    for path in ["/r", "/r/a", "/r/a/deep", "/r/b", "/r2", "/r_x/c", "/rx/d", "/r%/e", "/R/f"] {
        db.upsert_directory(path).unwrap();
    }
    assert_eq!(dir_paths(&db.child_directories("/r")), vec!["/r/a", "/r/b"]);
    assert_eq!(dir_paths(&db.child_directories("/r/a")), vec!["/r/a/deep"]);
    assert_eq!(dir_paths(&db.child_directories("/r_x")), vec!["/r_x/c"]);
    assert_eq!(dir_paths(&db.child_directories("/r%")), vec!["/r%/e"]);
    assert_eq!(dir_paths(&db.child_directories("/r_")), Vec::<String>::new());
    assert_eq!(dir_paths(&db.child_directories("/r/b")), Vec::<String>::new());
}

#[test]
fn delete_directory_tree_removes_descendants_and_their_files() {
    let mut db = Db::new();
    let r = db.upsert_directory("/r").unwrap();
    let a = db.upsert_directory("/r/a").unwrap();
    let deep = db.upsert_directory("/r/a/deep").unwrap();
    let ab = db.upsert_directory("/r/ab").unwrap();
    db.upsert_file(r, "top", "/r/top", 1, 1, None, None).unwrap();
    db.upsert_file(a, "x", "/r/a/x", 1, 1, None, None).unwrap();
    db.upsert_file(deep, "y", "/r/a/deep/y", 1, 1, None, None).unwrap();
    db.upsert_file(ab, "z", "/r/ab/z", 1, 1, None, None).unwrap();
    db.delete_directory_tree("/r/a");
    assert_eq!(dir_paths(&db.directories()), vec!["/r", "/r/ab"]);
    assert_eq!(paths(&db.files()), vec!["/r/top", "/r/ab/z"]);
    db.delete_directory_tree("/nowhere");
    assert_eq!(db.directories().len(), 2);
}

#[test]
fn upsert_file_overwrites_on_the_same_path_and_keeps_the_id() {
    let mut db = Db::new();
    let a = db.upsert_directory("/r/a").unwrap();
    let b = db.upsert_directory("/r/b").unwrap();
    let id = db.upsert_file(a, "one", "/r/a/one", 10, 1, Some("f1"), Some("h1")).unwrap();
    assert_eq!(id, 1);
    assert_eq!(db.upsert_file(a, "two", "/r/a/two", 11, 2, None, None), Ok(2));
    assert_eq!(db.upsert_file(b, "moved", "/r/a/one", 30, 3, Some("f9"), None), Ok(1));
    let rows = db.files();
    assert_eq!(rows.len(), 2);
    let row = &rows[0];
    assert_eq!(
        (row.id, row.directory_id, row.name.as_str(), row.canonical_path.as_str()),
        (1, b, "moved", "/r/a/one")
    );
    assert_eq!((row.size, row.modified_at), (30, 3));
    assert_eq!((row.fast_hash.as_deref(), row.full_hash.as_deref()), (Some("f9"), None));
    assert_eq!(paths(&db.files_in_directory(a)), vec!["/r/a/two"]);
    assert_eq!(paths(&db.files_in_directory(b)), vec!["/r/a/one"]);
}

#[test]
fn upsert_file_refuses_an_unknown_directory() {
    let mut db = Db::new();
    db.upsert_directory("/r").unwrap();
    let result = db.upsert_file(9, "x", "/r/x", 1, 1, None, None);
    assert_eq!(result, Err(StoreError::UnknownDirectory));
    assert_eq!(db.files().len(), 0);
}

#[test]
fn upsert_file_refuses_a_name_that_is_taken() {
    let mut db = Db::new();
    let r = db.upsert_directory("/r").unwrap();
    db.upsert_file(r, "x", "/r/x", 1, 1, None, None).unwrap();
    let result = db.upsert_file(r, "x", "/elsewhere/x", 1, 1, None, None);
    assert_eq!(result, Err(StoreError::DuplicateName));
    assert_eq!(paths(&db.files()), vec!["/r/x"]);
    assert_eq!(db.upsert_file(r, "x", "/r/x", 2, 2, None, None), Ok(1));
}

#[test]
fn identifiers_run_out_at_the_largest_number() {
    let db = Db::from_rows(
        vec![dir(i64::MAX, "/r")],
        vec![file(i64::MAX, i64::MAX, "x", "/r/x", 1)],
        vec![RuleRow { id: i64::MAX, pattern: "*".to_string(), priority: 0 }],
    );
    let mut db = db.unwrap();
    assert_eq!(db.upsert_directory("/s"), Err(StoreError::IdExhausted));
    assert_eq!(db.upsert_directory("/r"), Ok(i64::MAX));
    assert_eq!(
        db.upsert_file(i64::MAX, "y", "/r/y", 1, 1, None, None),
        Err(StoreError::IdExhausted)
    );
    assert_eq!(db.upsert_file(i64::MAX, "x", "/r/x", 2, 1, None, None), Ok(i64::MAX));
    assert_eq!(db.insert_rule("?", 1), Err(StoreError::IdExhausted));
    assert_eq!(db.all_rules().len(), 1);
}

#[test]
fn update_fast_hash_clears_the_full_hash() {
    let mut db = sample();
    db.update_fast_hash(1, "new");
    let rows = db.files();
    assert_eq!((rows[0].fast_hash.as_deref(), rows[0].full_hash.as_deref()), (Some("new"), None));
    assert_eq!((rows[1].fast_hash.as_deref(), rows[1].full_hash.as_deref()), (Some("f1"), Some("h1")));
    db.update_full_hash(1, "full");
    assert_eq!(db.files()[0].full_hash.as_deref(), Some("full"));
    assert_eq!(db.files()[0].fast_hash.as_deref(), Some("new"));
    db.update_full_hash(99, "none");
    assert_eq!(db.files().len(), 4);
}

#[test]
fn delete_file_by_id_and_by_path() {
    let mut db = sample();
    db.delete_file(2);
    assert_eq!(paths(&db.files()), vec!["/r/a/one", "/r/b/three", "/r/b/four"]);
    db.delete_file_by_path("/r/b/three");
    assert_eq!(paths(&db.files()), vec!["/r/a/one", "/r/b/four"]);
    db.delete_file(2);
    db.delete_file_by_path("/nowhere");
    assert_eq!(db.files().len(), 2);
}

#[test]
fn candidates_share_size_and_fast_hash_and_lack_a_full_hash() {
    let mut db = Db::new();
    let r = db.upsert_directory("/r").unwrap();
    db.upsert_file(r, "a", "/r/a", 10, 1, Some("f"), None).unwrap();
    db.upsert_file(r, "b", "/r/b", 10, 1, Some("f"), Some("h")).unwrap();
    db.upsert_file(r, "c", "/r/c", 10, 1, Some("g"), None).unwrap();
    db.upsert_file(r, "d", "/r/d", 11, 1, Some("f"), None).unwrap();
    db.upsert_file(r, "e", "/r/e", 0, 1, Some("z"), None).unwrap();
    db.upsert_file(r, "f", "/r/f", 0, 1, Some("z"), None).unwrap();
    db.upsert_file(r, "g", "/r/g", 5, 1, None, None).unwrap();
    db.upsert_file(r, "h", "/r/h", 5, 1, None, None).unwrap();
    db.upsert_file(r, "i", "/r/i", 10, 2, Some("f"), None).unwrap();
    assert_eq!(paths(&db.candidates_needing_full_hash()), vec!["/r/a", "/r/i"]);
}

#[test]
fn duplicate_groups_hold_the_files_of_each_shared_hash() {
    let mut db = sample();
    db.upsert_file(2, "five", "/r/b/five", 20, 1, Some("f2"), Some("h2")).unwrap();
    db.update_full_hash(4, "h2");
    db.upsert_file(2, "six", "/r/b/six", 30, 1, Some("f3"), Some("h3")).unwrap();
    let groups = db.duplicate_groups();
    assert_eq!(groups.len(), 2);
    assert_eq!(groups[0].full_hash, "h1");
    assert_eq!(paths(&groups[0].files), vec!["/r/a/one", "/r/a/two", "/r/b/three"]);
    assert_eq!(groups[1].full_hash, "h2");
    assert_eq!(paths(&groups[1].files), vec!["/r/b/four", "/r/b/five"]);
    assert_eq!(paths(&db.files_with_full_hash("h3")), vec!["/r/b/six"]);
    assert_eq!(paths(&db.files_with_full_hash("nope")), Vec::<String>::new());
}

#[test]
fn two_files_are_in_one_group_exactly_when_they_share_a_full_hash() {
    let mut db = sample();
    db.upsert_file(2, "five", "/r/b/five", 20, 1, Some("f2"), Some("h2")).unwrap();
    let groups = db.duplicate_groups();
    let files = db.files();
    for a in &files {
        for b in &files {
            if a.id == b.id {
                continue;
            }
            let together = groups.iter().any(|g| {
                g.files.iter().any(|f| f.id == a.id) && g.files.iter().any(|f| f.id == b.id)
            });
            let same = a.full_hash.is_some() && a.full_hash == b.full_hash;
            assert_eq!(together, same);
        }
    }
}

#[test]
fn duplicate_stats_count_a_file_whose_twin_lies_elsewhere() {
    let db = sample();
    assert_eq!(db.duplicate_stats_under("/r"), Ok((3, 30)));
    assert_eq!(db.duplicate_stats_under("/r/a"), Ok((2, 20)));
    assert_eq!(db.duplicate_stats_under("/r/b"), Ok((1, 10)));
    assert_eq!(db.duplicate_stats_under("/r/b/three"), Ok((1, 10)));
    assert_eq!(db.duplicate_stats_under("/r/b/four"), Ok((0, 0)));
    assert_eq!(db.duplicate_stats_under("/x"), Ok((0, 0)));
    assert_eq!(paths(&db.duplicate_files_in_dir(2)), vec!["/r/b/three"]);
    assert_eq!(paths(&db.duplicate_files_in_dir(1)), vec!["/r/a/one", "/r/a/two"]);
    assert_eq!(db.duplicate_files_in_dir(3).len(), 0);
}

#[test]
fn duplicate_stats_leave_out_a_directory_whose_name_begins_alike() {
    let mut db = Db::new();
    let alpha = db.upsert_directory("/r/alpha").unwrap();
    let alphabet = db.upsert_directory("/r/alphabet").unwrap();
    db.upsert_file(alpha, "a.txt", "/r/alpha/a.txt", 12, 1, Some("f"), Some("h")).unwrap();
    db.upsert_file(alphabet, "b.txt", "/r/alphabet/b.txt", 12, 1, Some("f"), Some("h")).unwrap();
    assert_eq!(db.duplicate_stats_under("/r/alpha"), Ok((1, 12)));
    assert_eq!(db.duplicate_stats_under("/r/alphabet"), Ok((1, 12)));
    assert_eq!(db.duplicate_stats_under("/r/alph"), Ok((0, 0)));
    assert_eq!(db.duplicate_stats_under("/r"), Ok((2, 24)));
    assert_eq!(db.duplicate_stats_under("/r/"), Ok((0, 0)));
    assert_eq!(db.duplicate_stats_under("/r/alpha/a.txt"), Ok((1, 12)));
    assert_eq!(db.files().len(), 2);
}

#[test]
fn duplicate_stats_take_percent_and_underscore_as_they_are() {
    let mut db = Db::new();
    let a = db.upsert_directory("/r/a_b").unwrap();
    let b = db.upsert_directory("/r/axb").unwrap();
    let c = db.upsert_directory("/r/100%").unwrap();
    db.upsert_file(a, "f", "/r/a_b/f", 1, 1, Some("x"), Some("h")).unwrap();
    db.upsert_file(b, "f", "/r/axb/f", 2, 1, Some("x"), Some("h")).unwrap();
    db.upsert_file(c, "f", "/r/100%/f", 4, 1, Some("x"), Some("h")).unwrap();
    assert_eq!(db.duplicate_stats_under("/r/a_b"), Ok((1, 1)));
    assert_eq!(db.duplicate_stats_under("/r/100%"), Ok((1, 4)));
    assert_eq!(db.duplicate_stats_under("/r/%"), Ok((0, 0)));
    assert_eq!(db.duplicate_stats_under("/r/a%"), Ok((0, 0)));
    assert_eq!(db.duplicate_stats_under("/r/a_"), Ok((0, 0)));
    assert_eq!(db.duplicate_stats_under("/r/axb"), Ok((1, 2)));
    assert_eq!(db.duplicate_stats_under("/r"), Ok((3, 7)));
}

#[test]
fn duplicate_stats_fail_where_the_sum_does_not_fit() {
    let mut db = Db::new();
    let r = db.upsert_directory("/r").unwrap();
    db.upsert_file(r, "a", "/r/a", i64::MAX, 1, Some("x"), Some("h")).unwrap();
    db.upsert_file(r, "b", "/r/b", i64::MAX, 1, Some("x"), Some("h")).unwrap();
    assert_eq!(db.duplicate_stats_under("/r"), Err(StoreError::Overflow));
    assert_eq!(db.duplicate_stats_under("/r/a"), Ok((1, i64::MAX)));
}

#[test]
fn rules_come_by_falling_priority_and_earlier_first() {
    let mut db = Db::new();
    db.insert_rule("a", 1).unwrap();
    db.insert_rule("b", 5).unwrap();
    db.insert_rule("c", 1).unwrap();
    db.insert_rule("d", -3).unwrap();
    db.insert_rule("e", 5).unwrap();
    let rules: Vec<(i64, String, i64)> =
        db.all_rules().iter().map(|r| (r.id, r.pattern.clone(), r.priority)).collect();
    assert_eq!(
        rules,
        vec![
            (2, "b".to_string(), 5),
            (5, "e".to_string(), 5),
            (1, "a".to_string(), 1),
            (3, "c".to_string(), 1),
            (4, "d".to_string(), -3),
        ]
    );
}

#[test]
fn from_rows_takes_rows_that_make_an_index() {
    let db = Db::from_rows(
        vec![dir(3, "/r"), dir(1, "/r/a")],
        vec![file(7, 3, "x", "/r/x", 1), file(2, 1, "x", "/r/a/x", 1)],
        vec![
            RuleRow { id: 2, pattern: "*".to_string(), priority: 9 },
            RuleRow { id: 1, pattern: "?".to_string(), priority: 9 },
        ],
    );
    let mut db = db.unwrap();
    assert_eq!(dir_paths(&db.directories()), vec!["/r", "/r/a"]);
    assert_eq!(paths(&db.files()), vec!["/r/x", "/r/a/x"]);
    assert_eq!(db.upsert_directory("/new"), Ok(4));
    assert_eq!(db.upsert_file(3, "y", "/r/y", 1, 1, None, None), Ok(8));
}

#[test]
fn from_rows_refuses_rows_that_make_no_index() {
    assert!(Db::from_rows(vec![dir(1, "/r"), dir(1, "/s")], vec![], vec![]).is_none());
    assert!(Db::from_rows(vec![dir(1, "/r"), dir(2, "/r")], vec![], vec![]).is_none());
    assert!(Db::from_rows(vec![dir(1, "/r")], vec![file(1, 2, "x", "/r/x", 1)], vec![]).is_none());
    assert!(Db::from_rows(
        vec![dir(1, "/r")],
        vec![file(1, 1, "x", "/r/x", 1), file(1, 1, "y", "/r/y", 1)],
        vec![]
    )
    .is_none());
    assert!(Db::from_rows(
        vec![dir(1, "/r")],
        vec![file(1, 1, "x", "/r/x", 1), file(2, 1, "y", "/r/x", 1)],
        vec![]
    )
    .is_none());
    assert!(Db::from_rows(
        vec![dir(1, "/r")],
        vec![file(1, 1, "x", "/r/x", 1), file(2, 1, "x", "/r/y", 1)],
        vec![]
    )
    .is_none());
    assert!(Db::from_rows(
        vec![],
        vec![],
        vec![
            RuleRow { id: 1, pattern: "*".to_string(), priority: 1 },
            RuleRow { id: 2, pattern: "?".to_string(), priority: 2 },
        ]
    )
    .is_none());
    assert!(Db::from_rows(
        vec![],
        vec![],
        vec![
            RuleRow { id: 1, pattern: "*".to_string(), priority: 1 },
            RuleRow { id: 1, pattern: "?".to_string(), priority: 1 },
        ]
    )
    .is_none());
}

#[test]
fn escape_like_escapes_the_three_metacharacters() {
    assert_eq!(escape_like("/plain/path"), "/plain/path");
    assert_eq!(escape_like("100%_done\\x"), "100\\%\\_done\\\\x");
    assert_eq!(escape_like(""), "");
    assert_eq!(escape_like("%%"), "\\%\\%");
}
