//! What the configuration file says, as plain values.

use vstd::prelude::*;

verus! {

/// The name of the configuration file.
pub open spec fn config_file_name() -> Seq<char> {
    "fdedupe_options.yaml"@
}

/// The settings of the configuration file. A key that the file leaves out
/// has the value that `default` gives it.
pub struct Config {
    /// Path of the index file.
    pub db: Option<String>,
    pub recursive: bool,
    pub rescan: bool,
    pub follow_symlinks: bool,
    pub hidden: bool,
    /// Take in only files whose names match one of these globs.
    pub include_globs: Vec<String>,
    /// Leave out files whose names match one of these globs.
    pub exclude_globs: Vec<String>,
}

impl Default for Config {
    /// The configuration where there is no file: no path, every switch off,
    /// no globs.
    fn default() -> (config: Config)
        ensures
            config.db is None,
            !config.recursive,
            !config.rescan,
            !config.follow_symlinks,
            !config.hidden,
            config.include_globs@.len() == 0,
            config.exclude_globs@.len() == 0,
    {
        Config {
            db: None,
            recursive: false,
            rescan: false,
            follow_symlinks: false,
            hidden: false,
            include_globs: Vec::new(),
            exclude_globs: Vec::new(),
        }
    }
}

impl Config {
    /// The name of the configuration file.
    pub fn file_name() -> (name: String)
        ensures
            name@ == config_file_name(),
    {
        "fdedupe_options.yaml".to_owned()
    }
}

} // verus!
