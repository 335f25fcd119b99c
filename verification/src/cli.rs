//! What the command line says, as plain values.

use vstd::prelude::*;
use crate::config::Config;
use crate::rows::{text_view, text_views};

verus! {

/// The command line: where the index is kept, and what to do.
pub struct Cli {
    /// Path of the index file, where the command line names one.
    pub db: Option<String>,
    pub command: Command,
}

/// What to do.
pub enum Command {
    /// Scan directories for duplicate files.
    Scan(ScanArgs),
    /// List the duplicates that the index holds.
    List(ListArgs),
    /// Choose duplicates and remove them.
    Remove(RemoveArgs),
}

/// The arguments of a scan.
pub struct ScanArgs {
    /// The directories to scan; none stands for the current directory.
    pub dirs: Vec<String>,
    /// Scan subdirectories too.
    pub recursive: bool,
    /// Scan directories again that were scanned before.
    pub rescan: bool,
    /// Follow symbolic links.
    pub follow_symlinks: bool,
    /// Take hidden files and directories in.
    pub hidden: bool,
    /// Take in only files whose names match one of these globs.
    pub include_globs: Vec<String>,
    /// Leave out files whose names match one of these globs.
    pub exclude_globs: Vec<String>,
}

/// The arguments of a listing.
pub struct ListArgs {
    /// The directory to list; none stands for the current directory.
    pub dir: Option<String>,
    /// List subdirectories too.
    pub recursive: bool,
    /// Follow symbolic links.
    pub follow_symlinks: bool,
    /// Browse the listing on the terminal.
    pub interactive: bool,
}

/// The arguments of a removal.
pub struct RemoveArgs {
    /// Show what would be removed, and remove nothing.
    pub dry_run: bool,
}

/// The name of the index file where neither the command line nor the
/// configuration names one.
pub open spec fn default_db_name() -> Seq<char> {
    "fdedupe.db"@
}

/// Where the index is kept: where the command line says, else where the
/// configuration says, else in `fdedupe.db`.
pub open spec fn chosen_db_path(cli: Option<Seq<char>>, config: Option<Seq<char>>) -> Seq<char> {
    match cli {
        Some(path) => path,
        None => match config {
            Some(path) => path,
            None => default_db_name(),
        },
    }
}

impl Cli {
    /// Where the index is kept. The command line overrides the configuration.
    pub fn db_path(&self, config: &Config) -> (path: String)
        ensures
            path@ == chosen_db_path(
                text_view(self.db),
                text_view(config.db),
            ),
    {
        match &self.db {
            Some(path) => path.clone(),
            None => match &config.db {
                Some(path) => path.clone(),
                None => "fdedupe.db".to_owned(),
            },
        }
    }
}

impl ScanArgs {
    /// The directories to scan: those named, or `current_dir` where none is.
    pub fn roots(&self, current_dir: &str) -> (roots: Vec<String>)
        ensures
            text_views(roots@) == if self.dirs@.len() == 0 {
                seq![current_dir@]
            } else {
                text_views(self.dirs@)
            },
    {
        let mut roots: Vec<String> = Vec::new();
        if self.dirs.len() == 0 {
            roots.push(current_dir.to_owned());
            proof {
                assert(text_views(roots@) =~= seq![current_dir@]);
            }
            return roots;
        }
        let mut i: usize = 0;
        while i < self.dirs.len()
            invariant
                i <= self.dirs.len(),
                roots@.len() == i,
                text_views(roots@) =~= text_views(self.dirs@).take(i as int),
            decreases self.dirs.len() - i,
        {
            let ghost prev = text_views(roots@);
            roots.push(self.dirs[i].clone());
            proof {
                assert(text_views(roots@) =~= prev.push(self.dirs@[i as int]@));
            }
            i += 1;
        }
        proof {
            assert(text_views(self.dirs@).take(i as int) =~= text_views(
                self.dirs@,
            ));
        }
        roots
    }
}

impl ListArgs {
    /// The directory to list: the one named, or `current_dir` where none is.
    pub fn root(&self, current_dir: &str) -> (root: String)
        ensures
            root@ == match self.dir {
                Some(dir) => dir@,
                None => current_dir@,
            },
    {
        match &self.dir {
            Some(dir) => dir.clone(),
            None => current_dir.to_owned(),
        }
    }
}

} // verus!
