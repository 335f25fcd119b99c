use std::collections::{BTreeMap, VecDeque};

use fdedupe::cli::{RemoveArgs, ScanArgs};
use fdedupe::config::Config;
use fdedupe::db::Db;
use fdedupe::hash::{fast_hash, full_hash};
use fdedupe::list::{list_dir, print_dir};
use fdedupe::remove::{FileAction, GroupState, Removal, record_removals};
use fdedupe::rows::DuplicateGroup;
use fdedupe::scan::{enqueue_subdirs, enumerate_dir, EntryKind, FsEntry, ScanOptions};
use fdedupe::scan_tui::ScanProgress;
use fdedupe::scanner::{
    begin_directory, finish_directory, next_directory, plan_hashing, reconcile_directory,
    record_candidate_hashes, record_fast_hashes, FileStat, SeenFile, Visit,
};

const ROOT: &str = "/data";

struct FakeFile {
    content: Vec<u8>,
    size: i64,
    modified_at: i64,
}

enum Node {
    Dir,
    File(FakeFile),
    Link(String),
}

/// A file system held in memory: each canonical path is a directory, a file
/// or a link to another canonical path.
struct FakeFs {
    nodes: BTreeMap<String, Node>,
    reads: usize,
}

impl FakeFs {
    fn new() -> FakeFs {
        FakeFs { nodes: BTreeMap::new(), reads: 0 }
    }

    fn dir(&mut self, path: &str) {
        self.nodes.insert(path.to_string(), Node::Dir);
    }

    fn file(&mut self, path: &str, content: &[u8]) {
        self.nodes.insert(
            path.to_string(),
            Node::File(FakeFile {
                content: content.to_vec(),
                size: content.len() as i64,
                modified_at: 1_700_000_000,
            }),
        );
    }

    fn link(&mut self, path: &str, target: &str) {
        self.nodes.insert(path.to_string(), Node::Link(target.to_string()));
    }

    fn remove(&mut self, path: &str) {
        self.nodes.remove(path);
    }

    fn kind(node: &Node) -> EntryKind {
        match node {
            Node::Dir => EntryKind::Directory,
            Node::File(_) => EntryKind::File,
            Node::Link(_) => EntryKind::Symlink,
        }
    }

    fn list(&self, dir: &str) -> Vec<FsEntry> {
        let prefix = format!("{}/", dir);
        let mut entries = Vec::new();
        for (path, node) in &self.nodes {
            if let Some(name) = path.strip_prefix(&prefix) {
                if name.contains('/') {
                    continue;
                }
                let (target_kind, canonical) = match node {
                    Node::Link(target) => {
                        (self.nodes.get(target).map(FakeFs::kind), Some(target.clone()))
                    }
                    other => (Some(FakeFs::kind(other)), Some(path.clone())),
                };
                entries.push(FsEntry {
                    name: name.to_string(),
                    path: path.clone(),
                    kind: Some(FakeFs::kind(node)),
                    target_kind,
                    canonical,
                });
            }
        }
        entries
    }

    fn stat(&self, path: &str) -> Option<FileStat> {
        match self.nodes.get(path) {
            Some(Node::File(f)) => Some(FileStat { size: f.size, modified_at: f.modified_at }),
            _ => None,
        }
    }

    fn read(&mut self, path: &str) -> Option<Vec<u8>> {
        self.reads += 1;
        match self.nodes.get(path) {
            Some(Node::File(f)) => Some(f.content.clone()),
            _ => None,
        }
    }
}

fn fixture() -> FakeFs {
    let mut fs = FakeFs::new();
    for dir in ["", "/alpha", "/alpha/nested", "/beta", "/beta/subdir", "/gamma", "/large", "/hidden"]
    {
        fs.dir(&format!("{}{}", ROOT, dir));
    }
    let big = vec![0xABu8; 131072];
    fs.file("/data/alpha/hello.txt", b"hello world\n");
    fs.file("/data/alpha/unique_a.txt", b"unique content alpha\n");
    fs.file("/data/alpha/nested/hello_copy.txt", b"hello world\n");
    fs.file("/data/alpha/nested/unique_b.txt", b"unique content beta\n");
    fs.file("/data/beta/hello_again.txt", b"hello world\n");
    fs.file("/data/beta/unique_c.txt", b"unique content gamma\n");
    fs.file("/data/beta/subdir/poem.txt", b"roses are red\n");
    fs.file("/data/beta/subdir/unique_d.txt", b"unique content delta\n");
    fs.file("/data/gamma/poem_copy.txt", b"roses are red\n");
    fs.file("/data/large/big.bin", &big);
    fs.file("/data/large/big_copy.bin", &big);
    fs.file("/data/hidden/.hidden_dup.txt", b"hello world\n");
    fs.file("/data/hidden/visible.txt", b"visible only\n");
    fs
}

fn options(recursive: bool, rescan: bool, follow_symlinks: bool, hidden: bool) -> ScanOptions {
    let args = ScanArgs {
        dirs: Vec::new(),
        recursive,
        rescan,
        follow_symlinks,
        hidden,
        include_globs: Vec::new(),
        exclude_globs: Vec::new(),
    };
    match ScanOptions::from_args_and_config(&args, &Config::default()) {
        Ok(options) => options,
        Err(_) => panic!("no options"),
    }
}

/// Scans as the program does: directory by directory from a queue, with the
/// library deciding and this function reading the fake file system.
fn scan(db: &mut Db, fs: &mut FakeFs, roots: &[&str], opts: &ScanOptions, now: i64) -> ScanProgress {
    let mut progress = ScanProgress::new();
    let mut queue: VecDeque<String> = roots.iter().map(|r| r.to_string()).collect();
    let mut visited: Vec<String> = Vec::new();
    while let Some(dir) = next_directory(&mut queue, &mut visited) {
        progress.set_current_dir(dir.clone());
        let visit = begin_directory(db, &dir, opts.rescan).unwrap();
        let entries = fs.list(&dir);
        let directory_id = match visit {
            Visit::Skip => {
                if opts.recursive {
                    enqueue_subdirs(&entries, opts, &mut queue);
                }
                continue;
            }
            Visit::Scan { directory_id } => directory_id,
        };
        let (found, subdirs) = enumerate_dir(&entries, opts);
        let known =
            reconcile_directory(db, &mut progress, directory_id, &dir, &found, &subdirs, opts.hidden);
        let seen: Vec<SeenFile> = found
            .iter()
            .map(|f| SeenFile { name: f.name.clone(), path: f.path.clone(), stat: fs.stat(&f.path) })
            .collect();
        let mut pending = plan_hashing(&mut progress, &known, &seen);
        for file in pending.iter_mut() {
            file.fast_hash = fs.read(&file.path).map(|content| fast_hash(&content));
        }
        record_fast_hashes(db, directory_id, &pending).unwrap();
        let candidates = db.candidates_needing_full_hash();
        let reads: Vec<Option<String>> = candidates
            .iter()
            .map(|c| fs.read(&c.canonical_path).map(|content| full_hash(&vec![content])))
            .collect();
        record_candidate_hashes(db, &mut progress, &reads);
        finish_directory(db, directory_id, now, opts.recursive, &subdirs, &mut queue);
    }
    progress
}

fn group_sizes(groups: &[DuplicateGroup]) -> Vec<(usize, i64)> {
    let mut sizes: Vec<(usize, i64)> =
        groups.iter().map(|g| (g.files.len(), g.files[0].size)).collect();
    sizes.sort();
    sizes
}

fn group_of<'a>(groups: &'a [DuplicateGroup], path: &str) -> &'a DuplicateGroup {
    groups.iter().find(|g| g.files.iter().any(|f| f.canonical_path == path)).unwrap()
}

fn paths_of(group: &DuplicateGroup) -> Vec<String> {
    let mut paths: Vec<String> = group.files.iter().map(|f| f.canonical_path.clone()).collect();
    paths.sort();
    paths
}

#[test]
fn directories_are_visited_breadth_first() {
    let mut fs = fixture();
    let mut db = Db::new();
    scan(&mut db, &mut fs, &[ROOT], &options(true, false, false, true), 100);
    let order: Vec<String> = db.directories().iter().map(|d| d.canonical_path.clone()).collect();
    assert_eq!(
        order,
        vec![
            "/data",
            "/data/alpha",
            "/data/beta",
            "/data/gamma",
            "/data/hidden",
            "/data/large",
            "/data/alpha/nested",
            "/data/beta/subdir",
        ]
    );
    let mut queue: VecDeque<String> = VecDeque::new();
    let mut visited: Vec<String> = Vec::new();
    assert_eq!(next_directory(&mut queue, &mut visited), None);
    for dir in ["a", "b", "a", "a", "c", "b"] {
        queue.push_back(dir.to_string());
    }
    assert_eq!(next_directory(&mut queue, &mut visited), Some("a".to_string()));
    assert_eq!(queue.len(), 5);
    assert_eq!(next_directory(&mut queue, &mut visited), Some("b".to_string()));
    assert_eq!(queue.len(), 4);
    assert_eq!(next_directory(&mut queue, &mut visited), Some("c".to_string()));
    assert_eq!(queue.len(), 1);
    assert_eq!(next_directory(&mut queue, &mut visited), None);
    assert_eq!(queue.len(), 0);
    assert_eq!(visited, vec!["a".to_string(), "b".to_string(), "c".to_string()]);
}

#[test]
fn a_cycle_of_links_is_left_after_one_round() {
    let mut fs = fixture();
    fs.link("/data/alpha/nested/up", "/data/alpha");
    fs.link("/data/gamma/alpha_link", "/data/alpha");
    fs.link("/data/beta/root", "/data");
    let mut db = Db::new();
    scan(&mut db, &mut fs, &[ROOT, ROOT], &options(true, false, true, false), 100);
    assert_eq!(db.directories().len(), 8);
    assert_eq!(db.files().len(), 12);
    assert_eq!(db.duplicate_stats_under(ROOT), Ok((7, 262208)));
    scan(&mut db, &mut fs, &[ROOT], &options(true, false, true, false), 200);
    assert!(db.directories().iter().all(|d| d.last_scanned == Some(100)));
    scan(&mut db, &mut fs, &[ROOT], &options(true, true, true, false), 300);
    assert!(db.directories().iter().all(|d| d.last_scanned == Some(300)));
    assert_eq!(db.directories().len(), 8);
    assert_eq!(db.files().len(), 12);
}

#[test]
fn recursive_scan_finds_three_duplicate_groups() {
    let mut fs = fixture();
    let mut db = Db::new();
    scan(&mut db, &mut fs, &[ROOT], &options(true, false, false, false), 100);
    let groups = db.duplicate_groups();
    assert_eq!(groups.len(), 3);
    assert_eq!(group_sizes(&groups), vec![(2, 14), (2, 131072), (3, 12)]);
    let hello = group_of(&groups, "/data/alpha/hello.txt");
    assert_eq!(
        paths_of(hello),
        vec![
            "/data/alpha/hello.txt".to_string(),
            "/data/alpha/nested/hello_copy.txt".to_string(),
            "/data/beta/hello_again.txt".to_string(),
        ]
    );
    let poem = group_of(&groups, "/data/gamma/poem_copy.txt");
    assert_eq!(
        paths_of(poem),
        vec!["/data/beta/subdir/poem.txt".to_string(), "/data/gamma/poem_copy.txt".to_string()]
    );
    let big = group_of(&groups, "/data/large/big.bin");
    assert_eq!(
        paths_of(big),
        vec!["/data/large/big.bin".to_string(), "/data/large/big_copy.bin".to_string()]
    );
}

#[test]
fn unique_files_are_never_read_in_full() {
    let mut fs = fixture();
    let mut db = Db::new();
    scan(&mut db, &mut fs, &[ROOT], &options(true, false, false, false), 100);
    for file in db.files() {
        assert!(file.fast_hash.is_some());
        let unique = file.name.starts_with("unique_") || file.name == "visible.txt";
        assert_eq!(file.full_hash.is_none(), unique, "{}", file.canonical_path);
    }
}

#[test]
fn files_that_share_size_and_fast_hash_are_read_in_full() {
    let mut fs = fixture();
    fs.file("/data/gamma/empty_a", b"");
    fs.file("/data/gamma/empty_b", b"");
    let mut big_other = vec![0xABu8; 131072];
    big_other[100_000] = 0;
    fs.file("/data/large/big_other.bin", &big_other);
    let mut db = Db::new();
    scan(&mut db, &mut fs, &[ROOT], &options(true, false, false, true), 100);
    let files = db.files();
    for a in &files {
        assert!(a.full_hash.is_none() || a.fast_hash.is_some());
        for b in &files {
            if a.id != b.id && a.size == b.size && a.size > 0 && a.fast_hash == b.fast_hash {
                assert!(a.full_hash.is_some() && b.full_hash.is_some(), "{}", a.canonical_path);
            }
        }
    }
    assert_eq!(db.candidates_needing_full_hash().len(), 0);
    let other = files.iter().find(|f| f.name == "big_other.bin").unwrap();
    let big = files.iter().find(|f| f.name == "big.bin").unwrap();
    assert_eq!(other.fast_hash, big.fast_hash);
    assert!(other.full_hash.is_some());
    assert_ne!(other.full_hash, big.full_hash);
    let empty = files.iter().find(|f| f.name == "empty_a").unwrap();
    assert!(empty.fast_hash.is_some() && empty.full_hash.is_none());
    let groups = db.duplicate_groups();
    assert_eq!(group_sizes(&groups), vec![(2, 14), (2, 131072), (4, 12)]);
}

#[test]
fn hidden_scan_adds_the_hidden_copy_to_its_group() {
    let mut fs = fixture();
    let mut db = Db::new();
    scan(&mut db, &mut fs, &[ROOT], &options(true, false, false, true), 100);
    let groups = db.duplicate_groups();
    assert_eq!(groups.len(), 3);
    let hello = group_of(&groups, "/data/alpha/hello.txt");
    assert_eq!(hello.files.len(), 4);
    assert!(hello.files.iter().any(|f| f.canonical_path == "/data/hidden/.hidden_dup.txt"));
}

#[test]
fn rescan_after_a_file_was_deleted_forgets_its_row() {
    let mut fs = fixture();
    let mut db = Db::new();
    scan(&mut db, &mut fs, &[ROOT], &options(true, false, false, false), 100);
    fs.remove("/data/alpha/nested/hello_copy.txt");
    let progress = scan(&mut db, &mut fs, &[ROOT], &options(true, true, false, false), 200);
    assert_eq!(progress.files_deleted(), 1);
    assert!(db.files().iter().all(|f| f.canonical_path != "/data/alpha/nested/hello_copy.txt"));
    let groups = db.duplicate_groups();
    let hello = group_of(&groups, "/data/alpha/hello.txt");
    assert_eq!(hello.files.len(), 2);
}

#[test]
fn rescan_without_hidden_keeps_hidden_rows() {
    let mut fs = fixture();
    let mut db = Db::new();
    scan(&mut db, &mut fs, &[ROOT], &options(true, false, false, true), 100);
    let progress = scan(&mut db, &mut fs, &[ROOT], &options(true, true, false, false), 200);
    assert_eq!(progress.files_deleted(), 0);
    assert!(db.files().iter().any(|f| f.canonical_path == "/data/hidden/.hidden_dup.txt"));
}

#[test]
fn symlinks_are_not_entered_unless_followed() {
    let mut fs = fixture();
    fs.link("/data/gamma/alpha_link", "/data/alpha");
    let mut db = Db::new();
    scan(&mut db, &mut fs, &[ROOT], &options(true, false, false, false), 100);
    assert!(db.get_directory("/data/gamma/alpha_link").is_none());
    assert_eq!(db.directories().len(), 8);
    assert_eq!(db.duplicate_stats_under(ROOT), Ok((7, 262208)));
}

#[test]
fn followed_symlinks_are_entered_once() {
    let mut fs = fixture();
    fs.link("/data/gamma/alpha_link", "/data/alpha");
    let mut db = Db::new();
    scan(&mut db, &mut fs, &[ROOT], &options(true, false, true, false), 100);
    assert_eq!(db.directories().len(), 8);
    assert_eq!(db.files().len(), 12);
    let groups = db.duplicate_groups();
    assert_eq!(group_sizes(&groups), vec![(2, 14), (2, 131072), (3, 12)]);
    assert_eq!(db.duplicate_stats_under(ROOT), Ok((7, 262208)));
}

#[test]
fn list_reports_the_duplicates_under_the_root() {
    let mut fs = fixture();
    let mut db = Db::new();
    scan(&mut db, &mut fs, &[ROOT], &options(true, false, false, false), 100);
    assert_eq!(db.duplicate_stats_under(ROOT), Ok((7, 12 * 3 + 14 * 2 + 131072 * 2)));
    let listing = list_dir(&db, ROOT).unwrap();
    assert!(listing.known);
    assert_eq!((listing.dup_count, listing.dup_size), (7, 262208));
    let children: Vec<(String, i64, i64)> =
        listing.children.iter().map(|c| (c.path.clone(), c.count, c.size)).collect();
    assert_eq!(
        children,
        vec![
            ("/data/alpha".to_string(), 2, 24),
            ("/data/beta".to_string(), 2, 26),
            ("/data/gamma".to_string(), 1, 14),
            ("/data/large".to_string(), 2, 262144),
        ]
    );
    assert_eq!(listing.dup_files.len(), 0);
    let lines = print_dir(&db, ROOT, false).unwrap();
    assert_eq!(
        lines,
        vec![
            "".to_string(),
            "Canonical path: /data".to_string(),
            "Duplicates: 7 files, 256.1 KB".to_string(),
            "".to_string(),
            "Subdirectories with duplicates:".to_string(),
            format!("  {:40}  {} files, {}", "alpha/", 2, "24 B"),
            format!("  {:40}  {} files, {}", "beta/", 2, "26 B"),
            format!("  {:40}  {} files, {}", "gamma/", 1, "14 B"),
            format!("  {:40}  {} files, {}", "large/", 2, "256.0 KB"),
        ]
    );
}

#[test]
fn scanning_an_unchanged_tree_again_reads_nothing() {
    let mut fs = fixture();
    let mut db = Db::new();
    scan(&mut db, &mut fs, &[ROOT], &options(true, false, false, false), 100);
    let before: Vec<_> = db
        .files()
        .iter()
        .map(|f| (f.id, f.canonical_path.clone(), f.fast_hash.clone(), f.full_hash.clone()))
        .collect();
    fs.reads = 0;
    let progress = scan(&mut db, &mut fs, &[ROOT], &options(true, true, false, false), 200);
    assert_eq!(fs.reads, 0);
    assert_eq!(progress.files_hashed(), 0);
    assert_eq!(progress.files_deleted(), 0);
    assert_eq!(progress.files_scanned(), 12);
    let after: Vec<_> = db
        .files()
        .iter()
        .map(|f| (f.id, f.canonical_path.clone(), f.fast_hash.clone(), f.full_hash.clone()))
        .collect();
    assert_eq!(before, after);
    assert!(db.directories().iter().all(|d| d.last_scanned == Some(200)));
}

#[test]
fn a_scan_without_rescan_skips_scanned_directories() {
    let mut fs = fixture();
    let mut db = Db::new();
    scan(&mut db, &mut fs, &[ROOT], &options(true, false, false, false), 100);
    fs.remove("/data/alpha/nested/hello_copy.txt");
    let progress = scan(&mut db, &mut fs, &[ROOT], &options(true, false, false, false), 200);
    assert_eq!(progress.files_scanned(), 0);
    assert!(db.files().iter().any(|f| f.canonical_path == "/data/alpha/nested/hello_copy.txt"));
    assert!(db.directories().iter().all(|d| d.last_scanned == Some(100)));
}

#[test]
fn after_a_scan_each_directory_holds_the_files_found_there() {
    let mut fs = fixture();
    let mut db = Db::new();
    let opts = options(true, false, false, true);
    scan(&mut db, &mut fs, &[ROOT], &opts, 100);
    fs.remove("/data/beta/unique_c.txt");
    fs.file("/data/beta/new.txt", b"something new\n");
    scan(&mut db, &mut fs, &[ROOT], &options(true, true, false, true), 200);
    for dir in db.directories() {
        let mut rows: Vec<String> =
            db.files_in_directory(dir.id).iter().map(|f| f.name.clone()).collect();
        rows.sort();
        let (found, _) = enumerate_dir(&fs.list(&dir.canonical_path), &opts);
        let mut names: Vec<String> = found.iter().map(|f| f.name.clone()).collect();
        names.sort();
        assert_eq!(rows, names, "{}", dir.canonical_path);
    }
}

#[test]
fn a_directory_that_has_gone_takes_its_tree_with_it() {
    let mut fs = fixture();
    let mut db = Db::new();
    scan(&mut db, &mut fs, &[ROOT], &options(true, false, false, false), 100);
    fs.remove("/data/alpha");
    fs.remove("/data/alpha/hello.txt");
    fs.remove("/data/alpha/unique_a.txt");
    fs.remove("/data/alpha/nested");
    fs.remove("/data/alpha/nested/hello_copy.txt");
    fs.remove("/data/alpha/nested/unique_b.txt");
    let progress = scan(&mut db, &mut fs, &[ROOT], &options(true, true, false, false), 200);
    assert!(db.get_directory("/data/alpha").is_none());
    assert!(db.get_directory("/data/alpha/nested").is_none());
    assert!(db.files().iter().all(|f| !f.canonical_path.starts_with("/data/alpha/")));
    assert_eq!(
        progress.log_lines().clone(),
        vec!["Removed deleted directory: /data/alpha".to_string()]
    );
    assert_eq!(db.duplicate_groups().len(), 2);
}

fn rule_scenario(dry_run: bool) -> (Db, FakeFs) {
    let mut fs = fixture();
    let mut db = Db::new();
    scan(&mut db, &mut fs, &[ROOT], &options(true, false, false, false), 100);
    db.insert_rule("*/nested/*", 1).unwrap();
    let args = RemoveArgs { dry_run };
    let rules = db.all_rules();
    let groups = db.duplicate_groups();
    let hello = group_of(&groups, "/data/alpha/hello.txt");
    let mut state = GroupState::new(hello);
    assert!(!state.is_decided());
    state.apply_rules(&rules);
    assert!(state.is_decided());
    assert_eq!(state.status_msg(), "Auto-resolved by priority rule.");
    for (file, action) in state.files().iter().zip(state.actions().iter()) {
        let expected = if file.canonical_path == "/data/alpha/nested/hello_copy.txt" {
            FileAction::Keep
        } else {
            FileAction::Delete
        };
        assert_eq!(*action, expected);
    }
    let plan = state.deletion_plan(args.dry_run);
    let mut removals = Vec::new();
    for path in plan {
        fs.remove(&path);
        removals.push(Removal { path, removed: true });
    }
    record_removals(&mut db, &removals);
    (db, fs)
}

#[test]
fn a_rule_resolves_the_group_and_a_dry_run_removes_nothing() {
    let (db, fs) = rule_scenario(true);
    assert_eq!(db.files().len(), 12);
    assert!(fs.stat("/data/alpha/hello.txt").is_some());
    assert!(fs.stat("/data/beta/hello_again.txt").is_some());
    assert_eq!(db.duplicate_groups().len(), 3);
}

#[test]
fn a_rule_resolves_the_group_and_the_other_copies_vanish() {
    let (db, fs) = rule_scenario(false);
    assert_eq!(db.files().len(), 10);
    assert!(fs.stat("/data/alpha/hello.txt").is_none());
    assert!(fs.stat("/data/beta/hello_again.txt").is_none());
    assert!(fs.stat("/data/alpha/nested/hello_copy.txt").is_some());
    assert!(db.files().iter().all(|f| f.canonical_path != "/data/alpha/hello.txt"
        && f.canonical_path != "/data/beta/hello_again.txt"));
    assert!(db.files().iter().any(|f| f.canonical_path == "/data/alpha/nested/hello_copy.txt"));
    assert_eq!(db.duplicate_groups().len(), 2);
}
