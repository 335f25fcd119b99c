//! The scan: what a directory listing is taken to hold, and how the index is
//! brought in line with it.

use vstd::prelude::*;
use std::collections::VecDeque;
use crate::cli::ScanArgs;
use crate::config::Config;
use crate::glob::{
    all_parse, build_globset, glob_parses, glob_set_builds, glob_set_matches, glob_set_patterns,
    set_is_empty, set_is_match, GlobError,
};
use crate::rows::{text_view, text_views};

verus! {

/// How a scan treats what it finds.
pub struct ScanOptions {
    /// Scan subdirectories too.
    pub recursive: bool,
    /// Scan directories again that were scanned before.
    pub rescan: bool,
    /// Take an entry for what it resolves to; otherwise symbolic links are
    /// passed over.
    pub follow_symlinks: bool,
    /// Take in entries whose names begin with a dot.
    pub hidden: bool,
    // The two sets are private, so that each is one that `from_args_and_config`
    // built of its patterns, with the options that `globset::Glob::new` gives.
    /// Where this set has globs, a file is taken in only if its name matches.
    include_globs: globset::GlobSet,
    /// A file whose name matches this set is left out.
    exclude_globs: globset::GlobSet,
}

/// What a `ScanOptions` stands for.
pub struct ScanOptionsView {
    pub recursive: bool,
    pub rescan: bool,
    pub follow_symlinks: bool,
    pub hidden: bool,
    pub include_globs: Seq<Seq<char>>,
    pub exclude_globs: Seq<Seq<char>>,
}

impl View for ScanOptions {
    type V = ScanOptionsView;

    /// The switches as they are, and each set by the patterns that it was
    /// built from.
    closed spec fn view(&self) -> ScanOptionsView {
        ScanOptionsView {
            recursive: self.recursive,
            rescan: self.rescan,
            follow_symlinks: self.follow_symlinks,
            hidden: self.hidden,
            include_globs: glob_set_patterns(self.include_globs),
            exclude_globs: glob_set_patterns(self.exclude_globs),
        }
    }
}

/// Why the options of a scan could not be made.
#[derive(Debug, Clone, Copy, PartialEq, Eq, Structural)]
pub enum OptionsError {
    /// The globs that files must match make no set.
    Wanted(GlobError),
    /// The globs that files must not match make no set.
    Unwanted(GlobError),
}

/// A name is hidden when it begins with a dot.
pub open spec fn is_hidden_name(name: Seq<char>) -> bool {
    name.len() > 0 && name[0] == '.'
}

/// A file name passes the globs when it matches the wanted ones, or there
/// are none, and matches none of the unwanted ones, as it does where there
/// are none.
pub open spec fn passes_globs(wanted: Seq<Seq<char>>, unwanted: Seq<Seq<char>>, name: Seq<char>) -> bool {
    (wanted.len() == 0 || glob_set_matches(wanted, name)) && (unwanted.len() == 0
        || !glob_set_matches(unwanted, name))
}

/// The globs of the command line where it gives any, else those of the
/// configuration: the two lists are never merged.
pub open spec fn chosen_globs(args: Seq<String>, config: Seq<String>) -> Seq<Seq<char>> {
    if args.len() > 0 {
        text_views(args)
    } else {
        text_views(config)
    }
}

/// A set can be made of the patterns: there is none, or each is a glob and
/// a set can be built of them.
pub open spec fn globs_build(patterns: Seq<Seq<char>>) -> bool {
    patterns.len() == 0 || (all_parse(patterns, patterns.len() as int) && glob_set_builds(
        patterns,
    ))
}

/// The error names what is wrong with the patterns: the first that is no
/// glob, or that no set can be built of them though each is a glob.
pub open spec fn globs_fail_with(patterns: Seq<Seq<char>>, error: GlobError) -> bool {
    match error {
        GlobError::Pattern(i) => i < patterns.len() && !glob_parses(patterns[i as int]) && all_parse(
            patterns,
            i as int,
        ),
        GlobError::Build => patterns.len() > 0 && all_parse(patterns, patterns.len() as int)
            && !glob_set_builds(patterns),
    }
}

impl ScanOptions {
    /// The options of a scan. A switch is on where the command line or the
    /// configuration turns it on. Each list of globs comes from the command
    /// line where that gives any, else from the configuration. A list
    /// without globs never fails the options, so that there are always
    /// options where neither side gives a glob.
    pub fn from_args_and_config(args: &ScanArgs, config: &Config) -> (result: Result<
        ScanOptions,
        OptionsError,
    >)
        ensures
            ({
                let wanted = chosen_globs(args.include_globs@, config.include_globs@);
                let unwanted = chosen_globs(args.exclude_globs@, config.exclude_globs@);
                match result {
                    Ok(options) => globs_build(wanted) && globs_build(unwanted) && options@ == (
                    ScanOptionsView {
                        recursive: args.recursive || config.recursive,
                        rescan: args.rescan || config.rescan,
                        follow_symlinks: args.follow_symlinks || config.follow_symlinks,
                        hidden: args.hidden || config.hidden,
                        include_globs: wanted,
                        exclude_globs: unwanted,
                    }),
                    Err(OptionsError::Wanted(e)) => globs_fail_with(wanted, e),
                    Err(OptionsError::Unwanted(e)) => globs_build(wanted) && globs_fail_with(
                        unwanted,
                        e,
                    ),
                }
            }),
    {
        let wanted = if args.include_globs.len() > 0 {
            &args.include_globs
        } else {
            &config.include_globs
        };
        let unwanted = if args.exclude_globs.len() > 0 {
            &args.exclude_globs
        } else {
            &config.exclude_globs
        };
        let include_globs = match build_globset(wanted) {
            Ok(set) => set,
            Err(e) => {
                return Err(OptionsError::Wanted(e));
            },
        };
        let exclude_globs = match build_globset(unwanted) {
            Ok(set) => set,
            Err(e) => {
                return Err(OptionsError::Unwanted(e));
            },
        };
        Ok(
            ScanOptions {
                recursive: args.recursive || config.recursive,
                rescan: args.rescan || config.rescan,
                follow_symlinks: args.follow_symlinks || config.follow_symlinks,
                hidden: args.hidden || config.hidden,
                include_globs,
                exclude_globs,
            },
        )
    }

    /// Whether a file of this name is taken in: its name matches the wanted
    /// globs, where there are any, and none of the unwanted ones.
    pub fn file_included(&self, name: &str) -> (taken: bool)
        ensures
            taken == passes_globs(self@.include_globs, self@.exclude_globs, name@),
    {
        if !set_is_empty(&self.include_globs) && !set_is_match(&self.include_globs, name) {
            return false;
        }
        if set_is_match(&self.exclude_globs, name) {
            return false;
        }
        true
    }

    /// Whether a name is hidden: whether it begins with a dot.
    pub fn is_hidden(name: &str) -> (hidden: bool)
        ensures
            hidden == is_hidden_name(name@),
    {
        !name.is_empty() && name.get_char(0) == '.'
    }
}

// ----------------------------------------------------------------------------
// The walker
// ----------------------------------------------------------------------------

/// What kind of thing a directory entry is.
#[derive(Debug, Clone, Copy, PartialEq, Eq, Structural)]
pub enum EntryKind {
    File,
    Directory,
    Symlink,
    Other,
}

/// An entry of a directory as the file system shows it.
pub struct FsEntry {
    /// The name of the entry in its directory.
    pub name: String,
    /// The path under which the entry was seen.
    pub path: String,
    /// The kind of the entry itself, where it could be read.
    pub kind: Option<EntryKind>,
    /// The kind of what the entry resolves to, where that could be read.
    pub target_kind: Option<EntryKind>,
    /// The canonical path of the entry, where it could be resolved.
    pub canonical: Option<String>,
}

/// What an `FsEntry` stands for.
pub struct FsEntryView {
    pub name: Seq<char>,
    pub path: Seq<char>,
    pub kind: Option<EntryKind>,
    pub target_kind: Option<EntryKind>,
    pub canonical: Option<Seq<char>>,
}

impl View for FsEntry {
    type V = FsEntryView;

    open spec fn view(&self) -> FsEntryView {
        FsEntryView {
            name: self.name@,
            path: self.path@,
            kind: self.kind,
            target_kind: self.target_kind,
            canonical: text_view(self.canonical),
        }
    }
}

/// What a listing stands for.
pub open spec fn entry_views(entries: Seq<FsEntry>) -> Seq<FsEntryView> {
    entries.map_values(|e: FsEntry| e@)
}

/// A regular file that a scan takes in: its name and its canonical path.
#[derive(Debug)]
pub struct FoundFile {
    pub name: String,
    pub path: String,
}

/// What a `FoundFile` stands for.
pub struct FoundFileView {
    pub name: Seq<char>,
    pub path: Seq<char>,
}

impl View for FoundFile {
    type V = FoundFileView;

    open spec fn view(&self) -> FoundFileView {
        FoundFileView { name: self.name@, path: self.path@ }
    }
}

/// What a list of found files stands for.
pub open spec fn found_views(files: Seq<FoundFile>) -> Seq<FoundFileView> {
    files.map_values(|f: FoundFile| f@)
}

/// The kind by which a scan takes an entry: that of what it resolves to
/// where links are followed, its own otherwise.
pub open spec fn kind_taken(e: FsEntryView, follow_symlinks: bool) -> Option<EntryKind> {
    if follow_symlinks {
        e.target_kind
    } else {
        e.kind
    }
}

/// The entry is in sight: it is not hidden, or hidden entries are taken in.
pub open spec fn in_sight(e: FsEntryView, hidden: bool) -> bool {
    hidden || !is_hidden_name(e.name)
}

/// The file that the scan takes the entry for, if it takes it for one: the
/// entry is in sight, a regular file, and its name passes the globs. Its path
/// is the canonical one, or the path as seen where none could be resolved.
pub open spec fn as_found_file(options: ScanOptionsView) -> spec_fn(FsEntryView) -> Option<
    FoundFileView,
> {
    |e: FsEntryView|
        if in_sight(e, options.hidden) && kind_taken(e, options.follow_symlinks) == Some(
            EntryKind::File,
        ) && passes_globs(options.include_globs, options.exclude_globs, e.name) {
            Some(
                FoundFileView {
                    name: e.name,
                    path: match e.canonical {
                        Some(p) => p,
                        None => e.path,
                    },
                },
            )
        } else {
            None
        }
}

/// The subdirectory that the scan takes the entry for, if it takes it for
/// one: the entry is in sight, a directory, and has a canonical path.
pub open spec fn as_subdir(options: ScanOptionsView) -> spec_fn(FsEntryView) -> Option<Seq<char>> {
    |e: FsEntryView|
        if in_sight(e, options.hidden) && kind_taken(e, options.follow_symlinks) == Some(
            EntryKind::Directory,
        ) {
            e.canonical
        } else {
            None
        }
}

/// The directory that the scan cannot enter though it is in sight, if the
/// entry is one: a directory without a canonical path. The result is the
/// path under which it was seen.
pub open spec fn as_dropped_subdir(options: ScanOptionsView) -> spec_fn(FsEntryView) -> Option<
    Seq<char>,
> {
    |e: FsEntryView|
        if in_sight(e, options.hidden) && kind_taken(e, options.follow_symlinks) == Some(
            EntryKind::Directory,
        ) && e.canonical is None {
            Some(e.path)
        } else {
            None
        }
}

/// Mapping one element more maps that element or leaves it out.
pub proof fn lemma_filter_map_step<A, B>(s: Seq<A>, f: spec_fn(A) -> Option<B>, i: int)
    requires
        0 <= i < s.len(),
    ensures
        s.take(i + 1).filter_map(f) == match f(s[i]) {
            Some(b) => s.take(i).filter_map(f).push(b),
            None => s.take(i).filter_map(f),
        },
{
    let t = s.take(i + 1);
    assert(t.drop_last() =~= s.take(i));
    assert(t.last() == s[i]);
    match f(s[i]) {
        Some(b) => {
            assert(s.take(i).filter_map(f) + seq![b] =~= s.take(i).filter_map(f).push(b));
        },
        None => {},
    }
}

fn kind_of(entry: &FsEntry, follow_symlinks: bool) -> (kind: Option<EntryKind>)
    ensures
        kind == kind_taken(entry@, follow_symlinks),
{
    if follow_symlinks {
        entry.target_kind
    } else {
        entry.kind
    }
}

fn is_kind(kind: Option<EntryKind>, wanted: EntryKind) -> (same: bool)
    ensures
        same == (kind == Some(wanted)),
{
    match kind {
        Some(k) => k == wanted,
        None => false,
    }
}

/// The regular files and the subdirectories that a scan takes a listing to
/// hold, each in the order of the listing.
pub fn enumerate_dir(entries: &Vec<FsEntry>, opts: &ScanOptions) -> (found: (
    Vec<FoundFile>,
    Vec<String>,
))
    ensures
        found_views(found.0@) == entry_views(entries@).filter_map(as_found_file(opts@)),
        text_views(found.1@) == entry_views(entries@).filter_map(as_subdir(opts@)),
{
    let ghost listing = entry_views(entries@);
    let ghost to_file = as_found_file(opts@);
    let ghost to_dir = as_subdir(opts@);
    let mut files: Vec<FoundFile> = Vec::new();
    let mut subdirs: Vec<String> = Vec::new();
    let mut i: usize = 0;
    while i < entries.len()
        invariant
            i <= entries.len(),
            listing == entry_views(entries@),
            to_file == as_found_file(opts@),
            to_dir == as_subdir(opts@),
            found_views(files@) =~= listing.take(i as int).filter_map(to_file),
            text_views(subdirs@) =~= listing.take(i as int).filter_map(to_dir),
        decreases entries.len() - i,
    {
        proof {
            lemma_filter_map_step(listing, to_file, i as int);
            lemma_filter_map_step(listing, to_dir, i as int);
        }
        let entry = &entries[i];
        if opts.hidden || !ScanOptions::is_hidden(entry.name.as_str()) {
            let kind = kind_of(entry, opts.follow_symlinks);
            if is_kind(kind, EntryKind::Directory) {
                match &entry.canonical {
                    Some(canonical) => {
                        let ghost prev = text_views(subdirs@);
                        subdirs.push(canonical.clone());
                        proof {
                            assert(text_views(subdirs@) =~= prev.push(canonical@));
                        }
                    },
                    None => {},
                }
            } else if is_kind(kind, EntryKind::File) {
                if opts.file_included(entry.name.as_str()) {
                    let path = match &entry.canonical {
                        Some(canonical) => canonical.clone(),
                        None => entry.path.clone(),
                    };
                    let ghost prev = found_views(files@);
                    let file = FoundFile { name: entry.name.clone(), path };
                    files.push(file);
                    proof {
                        assert(found_views(files@) =~= prev.push(to_file(listing[i as int])->Some_0));
                    }
                }
            }
        }
        i += 1;
    }
    proof {
        assert(listing.take(i as int) =~= listing);
    }
    (files, subdirs)
}

/// The directories of a listing that the scan passes over because their
/// canonical paths could not be resolved, by the paths under which they
/// were seen: what the log should name.
pub fn dropped_subdirs(entries: &Vec<FsEntry>, opts: &ScanOptions) -> (dropped: Vec<String>)
    ensures
        text_views(dropped@) == entry_views(entries@).filter_map(as_dropped_subdir(opts@)),
{
    let ghost listing = entry_views(entries@);
    let ghost to_dropped = as_dropped_subdir(opts@);
    let mut dropped: Vec<String> = Vec::new();
    let mut i: usize = 0;
    while i < entries.len()
        invariant
            i <= entries.len(),
            listing == entry_views(entries@),
            to_dropped == as_dropped_subdir(opts@),
            text_views(dropped@) =~= listing.take(i as int).filter_map(to_dropped),
        decreases entries.len() - i,
    {
        proof {
            lemma_filter_map_step(listing, to_dropped, i as int);
        }
        let entry = &entries[i];
        if (opts.hidden || !ScanOptions::is_hidden(entry.name.as_str())) && is_kind(
            kind_of(entry, opts.follow_symlinks),
            EntryKind::Directory,
        ) && entry.canonical.is_none() {
            let ghost prev = text_views(dropped@);
            dropped.push(entry.path.clone());
            proof {
                assert(text_views(dropped@) =~= prev.push(entry.path@));
            }
        }
        i += 1;
    }
    proof {
        assert(listing.take(i as int) =~= listing);
    }
    dropped
}

/// Puts the subdirectories that a scan takes a listing to hold at the end of
/// the queue, in the order of the listing. This is how a directory that is
/// not read again still leads to its subdirectories.
pub fn enqueue_subdirs(entries: &Vec<FsEntry>, opts: &ScanOptions, queue: &mut VecDeque<String>)
    ensures
        text_views(final(queue)@) == text_views(old(queue)@) + entry_views(entries@).filter_map(
            as_subdir(opts@),
        ),
{
    let ghost listing = entry_views(entries@);
    let ghost to_dir = as_subdir(opts@);
    let ghost start = text_views(queue@);
    let mut i: usize = 0;
    while i < entries.len()
        invariant
            i <= entries.len(),
            listing == entry_views(entries@),
            to_dir == as_subdir(opts@),
            text_views(queue@) =~= start + listing.take(i as int).filter_map(to_dir),
        decreases entries.len() - i,
    {
        proof {
            lemma_filter_map_step(listing, to_dir, i as int);
        }
        let entry = &entries[i];
        if opts.hidden || !ScanOptions::is_hidden(entry.name.as_str()) {
            if is_kind(kind_of(entry, opts.follow_symlinks), EntryKind::Directory) {
                match &entry.canonical {
                    Some(canonical) => {
                        let ghost prev = text_views(queue@);
                        queue.push_back(canonical.clone());
                        proof {
                            assert(text_views(queue@) =~= prev.push(canonical@));
                        }
                    },
                    None => {},
                }
            }
        }
        i += 1;
    }
    proof {
        assert(listing.take(i as int) =~= listing);
    }
}

/// Seconds since the epoch as a signed number of 64 bits: the low 64 bits
/// of the count, read as a signed number.
pub open spec fn seconds_as_i64(seconds: u64) -> i64 {
    if seconds <= i64::MAX {
        seconds as i64
    } else {
        (seconds - 0x1_0000_0000_0000_0000) as i64
    }
}

/// The time of a file or of the clock in seconds since the epoch, given as
/// the seconds that have passed since the epoch, or nothing for a time
/// before it, which counts as the epoch itself.
pub fn system_time_to_secs(since_epoch: Option<u64>) -> (seconds: i64)
    ensures
        seconds == match since_epoch {
            Some(s) => seconds_as_i64(s),
            None => 0,
        },
{
    match since_epoch {
        Some(s) => if s <= 0x7fff_ffff_ffff_ffff {
            s as i64
        } else {
            ((s - 0x8000_0000_0000_0000) as i64) + i64::MIN
        },
        None => 0,
    }
}

} // verus!
