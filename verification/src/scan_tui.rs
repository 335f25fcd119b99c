//! What a scan reports while it runs: where it is, what it has counted, and
//! the last lines of its log.

use vstd::prelude::*;
use crate::rows::text_views;

verus! {

/// How many lines the log keeps.
pub const LOG_LINES: usize = 100;

/// The progress of a scan.
pub struct ScanProgress {
    current_dir: String,
    files_scanned: u64,
    files_hashed: u64,
    files_deleted: u64,
    log_lines: Vec<String>,
    lines_logged: u64,
}

/// What a `ScanProgress` stands for.
pub struct ScanProgressView {
    pub current_dir: Seq<char>,
    pub files_scanned: u64,
    pub files_hashed: u64,
    pub files_deleted: u64,
    /// The lines that the log keeps, oldest first.
    pub log_lines: Seq<Seq<char>>,
    /// How many lines were logged in all, those that the log no longer
    /// keeps too.
    pub lines_logged: u64,
}

/// One more, but never past the largest number.
pub open spec fn bumped(n: u64) -> u64 {
    if n < u64::MAX {
        (n + 1) as u64
    } else {
        n
    }
}

/// `n` bumped `times` times.
pub open spec fn bumped_by(n: u64, times: nat) -> u64
    decreases times,
{
    if times == 0 {
        n
    } else {
        bumped(bumped_by(n, (times - 1) as nat))
    }
}

/// The log with one more line: the oldest line goes where the log would
/// hold more than `LOG_LINES`.
pub open spec fn logged(lines: Seq<Seq<char>>, line: Seq<char>) -> Seq<Seq<char>> {
    if lines.len() + 1 > LOG_LINES {
        lines.push(line).drop_first()
    } else {
        lines.push(line)
    }
}

impl View for ScanProgress {
    type V = ScanProgressView;

    closed spec fn view(&self) -> ScanProgressView {
        ScanProgressView {
            current_dir: self.current_dir@,
            files_scanned: self.files_scanned,
            files_hashed: self.files_hashed,
            files_deleted: self.files_deleted,
            log_lines: text_views(self.log_lines@),
            lines_logged: self.lines_logged,
        }
    }
}

fn bump(n: u64) -> (m: u64)
    ensures
        m == bumped(n),
{
    if n < u64::MAX {
        n + 1
    } else {
        n
    }
}

impl ScanProgress {
    /// The progress of a scan that has not begun.
    pub fn new() -> (progress: ScanProgress)
        ensures
            progress@ == (ScanProgressView {
                current_dir: Seq::empty(),
                files_scanned: 0,
                files_hashed: 0,
                files_deleted: 0,
                log_lines: Seq::empty(),
                lines_logged: 0,
            }),
    {
        let progress = ScanProgress {
            current_dir: String::new(),
            files_scanned: 0,
            files_hashed: 0,
            files_deleted: 0,
            log_lines: Vec::new(),
            lines_logged: 0,
        };
        proof {
            assert(text_views(progress.log_lines@) =~= Seq::<Seq<char>>::empty());
        }
        progress
    }

    /// The scan has come to the directory `dir`.
    pub fn set_current_dir(&mut self, dir: String)
        ensures
            final(self)@ == (ScanProgressView { current_dir: dir@, ..old(self)@ }),
    {
        self.current_dir = dir;
    }

    /// One more file was looked at.
    pub fn inc_scanned(&mut self)
        ensures
            final(self)@ == (ScanProgressView {
                files_scanned: bumped(old(self)@.files_scanned),
                ..old(self)@
            }),
    {
        self.files_scanned = bump(self.files_scanned);
    }

    /// One more file was read in full.
    pub fn inc_hashed(&mut self)
        ensures
            final(self)@ == (ScanProgressView {
                files_hashed: bumped(old(self)@.files_hashed),
                ..old(self)@
            }),
    {
        self.files_hashed = bump(self.files_hashed);
    }

    /// One more file had gone from its directory.
    pub fn inc_deleted(&mut self)
        ensures
            final(self)@ == (ScanProgressView {
                files_deleted: bumped(old(self)@.files_deleted),
                ..old(self)@
            }),
    {
        self.files_deleted = bump(self.files_deleted);
    }

    /// Adds a line to the log, which keeps its last `LOG_LINES` lines and
    /// counts every line.
    pub fn log(&mut self, msg: String)
        ensures
            final(self)@ == (ScanProgressView {
                log_lines: logged(old(self)@.log_lines, msg@),
                lines_logged: bumped(old(self)@.lines_logged),
                ..old(self)@
            }),
    {
        self.lines_logged = bump(self.lines_logged);
        let ghost before = text_views(self.log_lines@);
        self.log_lines.push(msg);
        proof {
            assert(text_views(self.log_lines@) =~= before.push(msg@));
        }
        if self.log_lines.len() > LOG_LINES {
            self.log_lines.remove(0);
            proof {
                assert(text_views(self.log_lines@) =~= before.push(msg@).drop_first());
            }
        }
    }

    /// The directory that the scan has come to.
    pub fn current_dir(&self) -> (dir: &String)
        ensures
            dir@ == self@.current_dir,
    {
        &self.current_dir
    }

    /// How many files were looked at.
    pub fn files_scanned(&self) -> (n: u64)
        ensures
            n == self@.files_scanned,
    {
        self.files_scanned
    }

    /// How many files were read in full.
    pub fn files_hashed(&self) -> (n: u64)
        ensures
            n == self@.files_hashed,
    {
        self.files_hashed
    }

    /// How many files had gone from their directories.
    pub fn files_deleted(&self) -> (n: u64)
        ensures
            n == self@.files_deleted,
    {
        self.files_deleted
    }

    /// How many lines were logged in all.
    pub fn lines_logged(&self) -> (n: u64)
        ensures
            n == self@.lines_logged,
    {
        self.lines_logged
    }

    /// The lines of the log, oldest first.
    pub fn log_lines(&self) -> (lines: &Vec<String>)
        ensures
            text_views(lines@) == self@.log_lines,
    {
        &self.log_lines
    }
}

} // verus!
