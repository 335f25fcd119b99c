use std::collections::VecDeque;

use fdedupe::cli::{Cli, Command, ListArgs, RemoveArgs, ScanArgs};
use fdedupe::config::Config;
use fdedupe::glob::{build_globset, GlobError};
use fdedupe::scan::{
    dropped_subdirs, enqueue_subdirs, enumerate_dir, EntryKind, FsEntry, OptionsError, ScanOptions,
};

fn strings(items: &[&str]) -> Vec<String> {
    items.iter().map(|s| s.to_string()).collect()
}

fn args(wanted: &[&str], unwanted: &[&str]) -> ScanArgs {
    ScanArgs {
        dirs: Vec::new(),
        recursive: false,
        rescan: false,
        follow_symlinks: false,
        hidden: false,
        include_globs: strings(wanted),
        exclude_globs: strings(unwanted),
    }
}

fn options(args: &ScanArgs, config: &Config) -> ScanOptions {
    match ScanOptions::from_args_and_config(args, config) {
        Ok(options) => options,
        Err(_) => panic!("no options"),
    }
}

fn entry(name: &str, kind: EntryKind) -> FsEntry {
    FsEntry {
        name: name.to_string(),
        path: format!("/seen/{}", name),
        kind: Some(kind),
        target_kind: Some(kind),
        canonical: Some(format!("/real/{}", name)),
    }
}

#[test]
fn a_switch_is_on_where_either_side_turns_it_on() {
    let mut a = args(&[], &[]);
    let mut config = Config::default();
    let off = options(&a, &config);
    assert!(!off.recursive && !off.rescan && !off.follow_symlinks && !off.hidden);
    a.recursive = true;
    config.rescan = true;
    a.hidden = true;
    config.hidden = true;
    let on = options(&a, &config);
    assert!(on.recursive && on.rescan && !on.follow_symlinks && on.hidden);
    config.follow_symlinks = true;
    assert!(options(&a, &config).follow_symlinks);
}

#[test]
fn globs_of_the_command_line_replace_those_of_the_configuration() {
    let mut config = Config::default();
    config.include_globs = strings(&["*.txt"]);
    config.exclude_globs = strings(&["b*"]);
    let from_config = options(&args(&[], &[]), &config);
    assert!(from_config.file_included("a.txt"));
    assert!(!from_config.file_included("a.rs"));
    assert!(!from_config.file_included("b.txt"));
    let from_args = options(&args(&["*.rs"], &[]), &config);
    assert!(from_args.file_included("a.rs"));
    assert!(!from_args.file_included("a.txt"));
    assert!(!from_args.file_included("b.rs"));
    let both = options(&args(&["*.rs", "*.md"], &["a*"]), &config);
    assert!(both.file_included("b.rs"));
    assert!(both.file_included("b.md"));
    assert!(!both.file_included("a.rs"));
    assert!(!both.file_included("b.txt"));
}

#[test]
fn without_globs_every_name_is_taken() {
    let all = options(&args(&[], &[]), &Config::default());
    assert!(all.file_included("anything"));
    assert!(all.file_included(".hidden"));
    assert!(all.file_included(""));
    let only_wanted = options(&args(&["*.txt"], &[]), &Config::default());
    assert!(only_wanted.file_included("a.txt"));
    assert!(!only_wanted.file_included("a.rs"));
    let only_unwanted = options(&args(&[], &["*.txt"]), &Config::default());
    assert!(!only_unwanted.file_included("a.txt"));
    assert!(only_unwanted.file_included("a.rs"));
}

#[test]
fn exclusion_is_applied_after_inclusion() {
    let opts = options(&args(&["*.txt"], &["*.txt"]), &Config::default());
    assert!(!opts.file_included("a.txt"));
    assert!(!opts.file_included("a.rs"));
}

#[test]
fn a_pattern_that_is_no_glob_fails_the_options() {
    let config = Config::default();
    let wanted = ScanOptions::from_args_and_config(&args(&["*.txt", "a[", "b["], &[]), &config);
    assert!(matches!(wanted, Err(OptionsError::Wanted(GlobError::Pattern(1)))));
    let unwanted = ScanOptions::from_args_and_config(&args(&["*.txt"], &["[z-a]"]), &config);
    assert!(matches!(unwanted, Err(OptionsError::Unwanted(GlobError::Pattern(0)))));
    let first = ScanOptions::from_args_and_config(&args(&["{a"], &["["]), &config);
    assert!(matches!(first, Err(OptionsError::Wanted(GlobError::Pattern(0)))));
}

#[test]
fn build_globset_builds_what_the_crate_builds() {
    assert!(build_globset(&Vec::new()).unwrap().is_empty());
    let set = build_globset(&strings(&["*.rs", "src/**/x"])).unwrap();
    assert_eq!(set.len(), 2);
    assert!(set.is_match("a.rs"));
    assert!(set.is_match("src/a/b/x"));
    assert!(!set.is_match("a.txt"));
    assert!(matches!(build_globset(&strings(&["ok", "a["])), Err(GlobError::Pattern(1))));
}

#[test]
fn names_that_begin_with_a_dot_are_hidden() {
    assert!(ScanOptions::is_hidden(".git"));
    assert!(ScanOptions::is_hidden("."));
    assert!(!ScanOptions::is_hidden("a.b"));
    assert!(!ScanOptions::is_hidden(""));
    assert!(!ScanOptions::is_hidden("é."));
}

#[test]
fn the_walker_takes_files_and_directories_in_sight() {
    let mut a = args(&["*.txt"], &["skip*"]);
    let entries = vec![
        entry("a.txt", EntryKind::File),
        entry("b.rs", EntryKind::File),
        entry("skip.txt", EntryKind::File),
        entry(".hidden.txt", EntryKind::File),
        entry("sub", EntryKind::Directory),
        entry(".git", EntryKind::Directory),
        entry("not.txt", EntryKind::Directory),
        entry("pipe.txt", EntryKind::Other),
    ];
    let (files, subdirs) = enumerate_dir(&entries, &options(&a, &Config::default()));
    let found: Vec<(String, String)> =
        files.iter().map(|f| (f.name.clone(), f.path.clone())).collect();
    assert_eq!(found, vec![("a.txt".to_string(), "/real/a.txt".to_string())]);
    assert_eq!(subdirs, strings(&["/real/sub", "/real/not.txt"]));
    a.hidden = true;
    let (files, subdirs) = enumerate_dir(&entries, &options(&a, &Config::default()));
    let names: Vec<String> = files.iter().map(|f| f.name.clone()).collect();
    assert_eq!(names, strings(&["a.txt", ".hidden.txt"]));
    assert_eq!(subdirs, strings(&["/real/sub", "/real/.git", "/real/not.txt"]));
}

#[test]
fn the_walker_passes_over_symlinks_unless_it_follows_them() {
    let link_to_file = FsEntry {
        name: "link".to_string(),
        path: "/seen/link".to_string(),
        kind: Some(EntryKind::Symlink),
        target_kind: Some(EntryKind::File),
        canonical: Some("/real/target".to_string()),
    };
    let link_to_dir = FsEntry {
        name: "dirlink".to_string(),
        path: "/seen/dirlink".to_string(),
        kind: Some(EntryKind::Symlink),
        target_kind: Some(EntryKind::Directory),
        canonical: Some("/real/dir".to_string()),
    };
    let broken = FsEntry {
        name: "broken".to_string(),
        path: "/seen/broken".to_string(),
        kind: Some(EntryKind::Symlink),
        target_kind: None,
        canonical: None,
    };
    let entries = vec![link_to_file, link_to_dir, broken];
    let mut a = args(&[], &[]);
    let (files, subdirs) = enumerate_dir(&entries, &options(&a, &Config::default()));
    assert_eq!(files.len(), 0);
    assert_eq!(subdirs.len(), 0);
    a.follow_symlinks = true;
    let (files, subdirs) = enumerate_dir(&entries, &options(&a, &Config::default()));
    let found: Vec<(String, String)> =
        files.iter().map(|f| (f.name.clone(), f.path.clone())).collect();
    assert_eq!(found, vec![("link".to_string(), "/real/target".to_string())]);
    assert_eq!(subdirs, strings(&["/real/dir"]));
}

#[test]
fn a_file_without_a_canonical_path_keeps_the_path_as_seen_and_a_directory_is_dropped() {
    let file = FsEntry {
        name: "f".to_string(),
        path: "/seen/f".to_string(),
        kind: Some(EntryKind::File),
        target_kind: Some(EntryKind::File),
        canonical: None,
    };
    let dir = FsEntry {
        name: "d".to_string(),
        path: "/seen/d".to_string(),
        kind: Some(EntryKind::Directory),
        target_kind: Some(EntryKind::Directory),
        canonical: None,
    };
    let unreadable = FsEntry {
        name: "u".to_string(),
        path: "/seen/u".to_string(),
        kind: None,
        target_kind: None,
        canonical: Some("/real/u".to_string()),
    };
    let entries = vec![file, dir, unreadable, entry("ok", EntryKind::Directory)];
    let opts = options(&args(&[], &[]), &Config::default());
    let (files, subdirs) = enumerate_dir(&entries, &opts);
    let found: Vec<(String, String)> =
        files.iter().map(|f| (f.name.clone(), f.path.clone())).collect();
    assert_eq!(found, vec![("f".to_string(), "/seen/f".to_string())]);
    assert_eq!(subdirs, strings(&["/real/ok"]));
    assert_eq!(dropped_subdirs(&entries, &opts), strings(&["/seen/d"]));
}

#[test]
fn globs_that_are_too_large_for_a_set_fail_the_build() {
    let huge = format!("[ab]{}", "a".repeat(3_000_000));
    assert!(matches!(build_globset(&vec![huge.clone()]), Err(GlobError::Build)));
    let result = ScanOptions::from_args_and_config(&args(&[], &[&huge]), &Config::default());
    assert!(matches!(result, Err(OptionsError::Unwanted(GlobError::Build))));
}

#[test]
fn enqueue_subdirs_adds_the_directories_in_sight_at_the_end() {
    let entries = vec![
        entry("a.txt", EntryKind::File),
        entry("one", EntryKind::Directory),
        entry(".two", EntryKind::Directory),
        entry("three", EntryKind::Directory),
    ];
    let mut queue: VecDeque<String> = VecDeque::new();
    queue.push_back("/first".to_string());
    enqueue_subdirs(&entries, &options(&args(&["*.none"], &[]), &Config::default()), &mut queue);
    let queued: Vec<String> = queue.into_iter().collect();
    assert_eq!(queued, strings(&["/first", "/real/one", "/real/three"]));
}

#[test]
fn the_index_path_comes_from_the_command_line_then_the_configuration() {
    let mut config = Config::default();
    let mut cli = Cli { db: None, command: Command::Remove(RemoveArgs { dry_run: false }) };
    assert_eq!(cli.db_path(&config), "fdedupe.db");
    config.db = Some("/etc/index.db".to_string());
    assert_eq!(cli.db_path(&config), "/etc/index.db");
    cli.db = Some("mine.db".to_string());
    assert_eq!(cli.db_path(&config), "mine.db");
    assert_eq!(Config::file_name(), "fdedupe_options.yaml");
}

#[test]
fn no_directory_named_stands_for_the_current_one() {
    let mut scan = args(&[], &[]);
    assert_eq!(scan.roots("/cwd"), strings(&["/cwd"]));
    scan.dirs = strings(&["/a", "b"]);
    assert_eq!(scan.roots("/cwd"), strings(&["/a", "b"]));
    let mut list =
        ListArgs { dir: None, recursive: false, follow_symlinks: false, interactive: false };
    assert_eq!(list.root("/cwd"), "/cwd");
    list.dir = Some("/x".to_string());
    assert_eq!(list.root("/cwd"), "/x");
}

#[test]
fn the_default_configuration_has_every_switch_off() {
    let config = Config::default();
    assert!(config.db.is_none());
    assert!(!config.recursive && !config.rescan && !config.follow_symlinks && !config.hidden);
    assert!(config.include_globs.is_empty() && config.exclude_globs.is_empty());
}
